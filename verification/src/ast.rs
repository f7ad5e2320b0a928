//! The parsed tree, its mathematical model, and the error taxonomy.

use crate::lexical::is_float_text;
use vstd::prelude::*;

verus! {

/// Why a parse stopped.
///
/// `Unparseable` is the one recoverable kind: an enclosing ordered choice
/// goes on to its next alternative. Every other kind ends the whole parse.
#[derive(Debug, Clone, Copy, PartialEq, Eq, Structural)]
pub enum JSONParseError {
    /// An integer literal whose value does not fit in 64 signed bits.
    BadInt,
    /// A float literal whose text could not be converted to a number. The
    /// parser keeps the text of a float literal as it stands and never gives
    /// this error itself: it belongs to the code that converts the text.
    BadFloat,
    /// A string literal whose escapes are well-formed but cannot be decoded.
    BadEscape,
    /// No grammar alternative matches at the current position.
    Unparseable,
    /// Arrays and objects are nested more deeply than the parser descends.
    TooDeep,
}

/// A parsed JSON value.
#[derive(PartialEq, Debug)]
pub enum Node {
    Null,
    Bool(bool),
    Integer(i64),
    /// The text of the literal, which matches the float grammar.
    Float(String),
    /// The decoded text, with no escape sequence left in it.
    Str(String),
    Array(Vec<Node>),
    /// The members in the order of the text; a repeated key is kept.
    Object(Vec<(String, Node)>),
}

/// The mathematical value that a [`Node`] stands for.
pub enum Json {
    Null,
    Bool(bool),
    Integer(int),
    Float(Seq<char>),
    Str(Seq<char>),
    Array(Seq<Json>),
    Object(Seq<Member>),
}

/// One member of an object: a key and the value under it.
pub struct Member {
    pub key: Seq<char>,
    pub value: Json,
}

impl Json {
    /// The value is one that a parse gives: every integer fits in 64 signed
    /// bits and every float holds the text of a float literal.
    pub open spec fn well_formed(self) -> bool
        decreases self,
    {
        match self {
            Json::Integer(v) => i64::MIN <= v <= i64::MAX,
            Json::Float(t) => is_float_text(t),
            Json::Array(items) => forall|k: int|
                0 <= k < items.len() ==> (#[trigger] items[k]).well_formed(),
            Json::Object(members) => forall|k: int|
                0 <= k < members.len() ==> (#[trigger] members[k]).value.well_formed(),
            _ => true,
        }
    }
}

/// What a recognizer gives at a position: the position just past the match
/// and the value, or the reason why there is none.
pub type Parsed<T> = Result<(int, T), JSONParseError>;

impl View for Node {
    type V = Json;

    open spec fn view(&self) -> Json
        decreases self,
    {
        match self {
            Node::Null => Json::Null,
            Node::Bool(b) => Json::Bool(*b),
            Node::Integer(n) => Json::Integer(*n as int),
            Node::Float(t) => Json::Float(t@),
            Node::Str(t) => Json::Str(t@),
            Node::Array(items) => Json::Array(
                Seq::new(
                    items@.len(),
                    |k: int|
                        if 0 <= k < items@.len() {
                            items@[k].view()
                        } else {
                            Json::Null
                        },
                ),
            ),
            Node::Object(members) => Json::Object(
                Seq::new(
                    members@.len(),
                    |k: int|
                        if 0 <= k < members@.len() {
                            Member { key: members@[k].0@, value: members@[k].1.view() }
                        } else {
                            Member { key: Seq::empty(), value: Json::Null }
                        },
                ),
            ),
        }
    }
}

/// The values of a sequence of nodes, in order.
pub open spec fn views(items: Seq<Node>) -> Seq<Json> {
    Seq::new(items.len(), |k: int| items[k]@)
}

/// The keys and values of a sequence of members, in order.
pub open spec fn member_views(members: Seq<(String, Node)>) -> Seq<Member> {
    Seq::new(members.len(), |k: int| Member { key: members[k].0@, value: members[k].1@ })
}

/// An array node stands for the array of its items' values.
pub proof fn lemma_array_view(items: Vec<Node>)
    ensures
        Node::Array(items)@ == Json::Array(views(items@)),
{
    match Node::Array(items)@ {
        Json::Array(x) => {
            assert(x =~= views(items@));
        },
        _ => {},
    }
}

/// An object node stands for the sequence of its members' keys and values.
pub proof fn lemma_object_view(members: Vec<(String, Node)>)
    ensures
        Node::Object(members)@ == Json::Object(member_views(members@)),
{
    match Node::Object(members)@ {
        Json::Object(x) => {
            assert(x =~= member_views(members@));
        },
        _ => {},
    }
}

impl JSONParseError {
    /// Whether an ordered choice goes on to its next alternative after this
    /// error: only after `Unparseable`.
    pub fn is_recoverable(&self) -> (b: bool)
        ensures
            b == (*self == JSONParseError::Unparseable),
    {
        match self {
            JSONParseError::Unparseable => true,
            _ => false,
        }
    }

    /// The error in words.
    pub open spec fn message_text(self) -> Seq<char> {
        match self {
            JSONParseError::BadInt => "bad integer"@,
            JSONParseError::BadFloat => "bad float"@,
            JSONParseError::BadEscape => "bad escape sequence"@,
            JSONParseError::Unparseable => "unknown parser error"@,
            JSONParseError::TooDeep => "nesting too deep"@,
        }
    }

    /// The error in words.
    pub fn message(&self) -> (m: String)
        ensures
            m@ == self.message_text(),
    {
        match self {
            JSONParseError::BadInt => "bad integer".to_owned(),
            JSONParseError::BadFloat => "bad float".to_owned(),
            JSONParseError::BadEscape => "bad escape sequence".to_owned(),
            JSONParseError::Unparseable => "unknown parser error".to_owned(),
            JSONParseError::TooDeep => "nesting too deep".to_owned(),
        }
    }
}

impl Clone for Node {
    /// A deep copy: a node that stands for the same value.
    #[verifier::loop_isolation(false)]
    fn clone(&self) -> (r: Node)
        ensures
            r@ == self@,
        decreases self,
    {
        match self {
            Node::Null => Node::Null,
            Node::Bool(b) => Node::Bool(*b),
            Node::Integer(n) => Node::Integer(*n),
            Node::Float(t) => Node::Float(t.clone()),
            Node::Str(t) => Node::Str(t.clone()),
            Node::Array(items) => {
                let mut out: Vec<Node> = Vec::new();
                let mut k: usize = 0;
                while k < items.len()
                    invariant
                        k <= items.len(),
                        out.len() == k,
                        forall|m: int| 0 <= m < k ==> (#[trigger] out@[m])@ == items@[m]@,
                    decreases items.len() - k,
                {
                    out.push(items[k].clone());
                    k += 1;
                }
                proof {
                    lemma_array_view(out);
                    lemma_array_view(*items);
                    assert(views(out@) =~= views(items@));
                }
                Node::Array(out)
            },
            Node::Object(members) => {
                let mut out: Vec<(String, Node)> = Vec::new();
                let mut k: usize = 0;
                while k < members.len()
                    invariant
                        k <= members.len(),
                        out.len() == k,
                        forall|m: int|
                            0 <= m < k ==> (#[trigger] out@[m]).0@ == members@[m].0@ && out@[m].1@
                                == members@[m].1@,
                    decreases members.len() - k,
                {
                    out.push((members[k].0.clone(), members[k].1.clone()));
                    k += 1;
                }
                proof {
                    lemma_object_view(out);
                    lemma_object_view(*members);
                    assert(member_views(out@) =~= member_views(members@));
                }
                Node::Object(out)
            },
        }
    }
}

/// An executable result says what the grammar says: the same end and a node
/// that stands for the same value, or the same error.
pub open spec fn agrees(r: Result<(usize, Node), JSONParseError>, m: Parsed<Json>) -> bool {
    match m {
        Ok((end, value)) => r matches Ok((e, node)) && e as int == end && node@ == value,
        Err(e) => r matches Err(x) && x == e,
    }
}

} // verus!
