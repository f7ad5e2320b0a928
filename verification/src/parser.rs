//! The recursive-descent parser: one executable recognizer for each rule of
//! the grammar, proved to give what the rule says.

use crate::ast::{
    agrees, lemma_array_view, lemma_object_view, member_views, views, JSONParseError, Json,
    Member, Node,
};
use crate::grammar::{
    array_at, bool_at, elements_at, member_at, members_at, more_elements, more_members, null_at,
    object_at, scalar_at, value_at,
};
use crate::lexical::{multispace0, spaced_end, spacey};
use crate::number::{float_from, integer_from};
use crate::text::{string_from, string_literal};
use vstd::prelude::*;

verus! {

/// Recognizes `false` or `true` at `i`.
pub fn bool_from(s: &[char], i: usize) -> (r: Result<(usize, Node), JSONParseError>)
    ensures
        agrees(r, bool_at(s@, i as int)),
        r matches Ok((end, _)) ==> i < end <= s.len(),
{
    let n = s.len();
    if i <= n && n - i >= 5 && s[i] == 'f' && s[i + 1] == 'a' && s[i + 2] == 'l' && s[i + 3] == 's'
        && s[i + 4] == 'e' {
        proof {
            assert(s@.subrange(i as int, i as int + 5) =~= seq!['f', 'a', 'l', 's', 'e']);
        }
        Ok((i + 5, Node::Bool(false)))
    } else if i <= n && n - i >= 4 && s[i] == 't' && s[i + 1] == 'r' && s[i + 2] == 'u' && s[i
        + 3] == 'e' {
        proof {
            let word = s@.subrange(i as int, i as int + 4);
            assert(word =~= seq!['t', 'r', 'u', 'e']);
            assert(word[0] == 't');
        }
        Ok((i + 4, Node::Bool(true)))
    } else {
        proof {
            if i + 5 <= n {
                let word = s@.subrange(i as int, i as int + 5);
                assert(word[0] == s@[i as int] && word[1] == s@[i + 1] && word[2] == s@[i + 2]
                    && word[3] == s@[i + 3] && word[4] == s@[i + 4]);
            }
            if i + 4 <= n {
                let word = s@.subrange(i as int, i as int + 4);
                assert(word[0] == s@[i as int] && word[1] == s@[i + 1] && word[2] == s@[i + 2]
                    && word[3] == s@[i + 3]);
            }
        }
        Err(JSONParseError::Unparseable)
    }
}

/// Recognizes `null` at `i`.
pub fn null_from(s: &[char], i: usize) -> (r: Result<(usize, Node), JSONParseError>)
    ensures
        agrees(r, null_at(s@, i as int)),
        r matches Ok((end, _)) ==> i < end <= s.len(),
{
    let n = s.len();
    if i <= n && n - i >= 4 && s[i] == 'n' && s[i + 1] == 'u' && s[i + 2] == 'l' && s[i + 3]
        == 'l' {
        proof {
            assert(s@.subrange(i as int, i as int + 4) =~= seq!['n', 'u', 'l', 'l']);
        }
        Ok((i + 4, Node::Null))
    } else {
        proof {
            if i + 4 <= n {
                let word = s@.subrange(i as int, i as int + 4);
                assert(word[0] == s@[i as int] && word[1] == s@[i + 1] && word[2] == s@[i + 2]
                    && word[3] == s@[i + 3]);
            }
        }
        Err(JSONParseError::Unparseable)
    }
}

/// Recognizes the first alternative that matches at `i` among string, float,
/// integer, boolean and null.
pub fn scalar_from(s: &[char], i: usize) -> (r: Result<(usize, Node), JSONParseError>)
    ensures
        agrees(r, scalar_at(s@, i as int)),
        r matches Ok((end, _)) ==> i < end <= s.len(),
{
    match string_from(s, i) {
        Err(JSONParseError::Unparseable) => match float_from(s, i) {
            Err(JSONParseError::Unparseable) => match integer_from(s, i) {
                Err(JSONParseError::Unparseable) => match bool_from(s, i) {
                    Err(JSONParseError::Unparseable) => null_from(s, i),
                    other => other,
                },
                other => other,
            },
            other => other,
        },
        other => other,
    }
}

/// Recognizes a value at `i`, with the whitespace around it.
pub fn value_from(s: &[char], i: usize, depth: usize) -> (r: Result<
    (usize, Node),
    JSONParseError,
>)
    ensures
        agrees(r, value_at(s@, i as int, depth as nat)),
        r matches Ok((end, _)) ==> i < end <= s.len(),
    decreases depth, 2nat,
{
    let start = multispace0(s, i);
    let found = match array_from(s, start, depth) {
        Err(JSONParseError::Unparseable) => match object_from(s, start, depth) {
            Err(JSONParseError::Unparseable) => scalar_from(s, start),
            other => other,
        },
        other => other,
    };
    match found {
        Ok((end, node)) => Ok((multispace0(s, end), node)),
        Err(e) => Err(e),
    }
}

/// Recognizes an array at `i`, with its values.
pub fn array_from(s: &[char], i: usize, depth: usize) -> (r: Result<
    (usize, Node),
    JSONParseError,
>)
    ensures
        agrees(r, array_at(s@, i as int, depth as nat)),
        r matches Ok((end, _)) ==> i < end <= s.len(),
    decreases depth, 1nat,
{
    let first = match spacey(s, i, '[') {
        None => {
            return Err(JSONParseError::Unparseable);
        },
        Some(first) => first,
    };
    if depth == 0 {
        return Err(JSONParseError::TooDeep);
    }
    let mut items: Vec<Node> = Vec::new();
    let mut pos: usize = first;
    match value_from(s, first, depth - 1) {
        Err(JSONParseError::Unparseable) => {
            assert(views(items@) =~= Seq::<Json>::empty());
        },
        Err(e) => {
            return Err(e);
        },
        Ok((end, head)) => {
            let ghost value = head@;
            items.push(head);
            pos = end;
            assert(views(items@) =~= seq![value]);
            loop
                invariant
                    spaced_end(s@, i as int, '[') == Some(first as int),
                    depth > 0,
                    i < first < pos <= s.len(),
                    elements_at(s@, first as int, (depth - 1) as nat) == more_elements(
                        s@,
                        pos as int,
                        (depth - 1) as nat,
                        views(items@),
                    ),
                ensures
                    i < first <= pos <= s.len(),
                    elements_at(s@, first as int, (depth - 1) as nat) == Ok::<
                        (int, Seq<Json>),
                        JSONParseError,
                    >((pos as int, views(items@))),
                decreases s.len() - pos,
            {
                let next = match spacey(s, pos, ',') {
                    None => {
                        break ;
                    },
                    Some(next) => next,
                };
                match value_from(s, next, depth - 1) {
                    Err(JSONParseError::Unparseable) => {
                        break ;
                    },
                    Err(e) => {
                        return Err(e);
                    },
                    Ok((end, item)) => {
                        let ghost before = views(items@);
                        let ghost value = item@;
                        items.push(item);
                        pos = end;
                        assert(views(items@) =~= before.push(value));
                    },
                }
            }
        },
    }
    match spacey(s, pos, ']') {
        Some(after) => {
            proof {
                lemma_array_view(items);
            }
            Ok((after, Node::Array(items)))
        },
        None => Err(JSONParseError::Unparseable),
    }
}

/// Recognizes one member of an object at `i`: `"key" : value`.
pub fn object_member(s: &[char], i: usize, depth: usize) -> (r: Result<
    (usize, (String, Node)),
    JSONParseError,
>)
    ensures
        match member_at(s@, i as int, depth as nat) {
            Ok((end, member)) => r matches Ok((e, pair)) && e as int == end && pair.0@
                == member.key && pair.1@ == member.value,
            Err(e) => r matches Err(x) && x == e,
        },
        r matches Ok((end, _)) ==> i < end <= s.len(),
    decreases depth, 3nat,
{
    match string_literal(s, i) {
        Err(e) => Err(e),
        Ok((key_end, key)) => match spacey(s, key_end, ':') {
            None => Err(JSONParseError::Unparseable),
            Some(at) => match value_from(s, at, depth) {
                Ok((end, value)) => Ok((end, (key, value))),
                Err(e) => Err(e),
            },
        },
    }
}

/// Recognizes an object at `i`, with its members.
pub fn object_from(s: &[char], i: usize, depth: usize) -> (r: Result<
    (usize, Node),
    JSONParseError,
>)
    ensures
        agrees(r, object_at(s@, i as int, depth as nat)),
        r matches Ok((end, _)) ==> i < end <= s.len(),
    decreases depth, 1nat,
{
    let first = match spacey(s, i, '{') {
        None => {
            return Err(JSONParseError::Unparseable);
        },
        Some(first) => first,
    };
    if depth == 0 {
        return Err(JSONParseError::TooDeep);
    }
    let mut members: Vec<(String, Node)> = Vec::new();
    let mut pos: usize = first;
    match object_member(s, first, depth - 1) {
        Err(JSONParseError::Unparseable) => {
            assert(member_views(members@) =~= Seq::<Member>::empty());
        },
        Err(e) => {
            return Err(e);
        },
        Ok((end, head)) => {
            let ghost member = Member { key: head.0@, value: head.1@ };
            members.push(head);
            pos = end;
            assert(member_views(members@) =~= seq![member]);
            loop
                invariant
                    spaced_end(s@, i as int, '{') == Some(first as int),
                    depth > 0,
                    i < first < pos <= s.len(),
                    members_at(s@, first as int, (depth - 1) as nat) == more_members(
                        s@,
                        pos as int,
                        (depth - 1) as nat,
                        member_views(members@),
                    ),
                ensures
                    i < first <= pos <= s.len(),
                    members_at(s@, first as int, (depth - 1) as nat) == Ok::<
                        (int, Seq<Member>),
                        JSONParseError,
                    >((pos as int, member_views(members@))),
                decreases s.len() - pos,
            {
                let next = match spacey(s, pos, ',') {
                    None => {
                        break ;
                    },
                    Some(next) => next,
                };
                match object_member(s, next, depth - 1) {
                    Err(JSONParseError::Unparseable) => {
                        break ;
                    },
                    Err(e) => {
                        return Err(e);
                    },
                    Ok((end, pair)) => {
                        let ghost before = member_views(members@);
                        let ghost member = Member { key: pair.0@, value: pair.1@ };
                        members.push(pair);
                        pos = end;
                        assert(member_views(members@) =~= before.push(member));
                    },
                }
            }
        },
    }
    match spacey(s, pos, '}') {
        Some(after) => {
            proof {
                lemma_object_view(members);
            }
            Ok((after, Node::Object(members)))
        },
        None => Err(JSONParseError::Unparseable),
    }
}

} // verus!
