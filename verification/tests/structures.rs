use json_tree::grammar::MAX_DEPTH;
use json_tree::parser::{array_from, object_from, object_member, value_from};
use json_tree::{json_array, json_object, json_value, parse, JSONParseError, Node};

fn chars(text: &str) -> Vec<char> {
    text.chars().collect()
}

fn nested(depth: usize) -> String {
    let mut text = String::new();
    for _ in 0..depth {
        text.push('[');
    }
    for _ in 0..depth {
        text.push(']');
    }
    text
}

#[test]
fn test_array() {
    assert_eq!(json_array("[ ]"), Ok(("", Node::Array(vec![]))));
    assert_eq!(json_array("[ 1 ]"), Ok(("", Node::Array(vec![Node::Integer(1)]))));

    let expected = Node::Array(vec![Node::Integer(1), Node::Str("x".into())]);
    assert_eq!(json_array(r#" [ 1 , "x" ] "#), Ok(("", expected)));
}

#[test]
fn test_object() {
    assert_eq!(json_object("{ }"), Ok(("", Node::Object(vec![]))));
    let expected = Node::Object(vec![("1".into(), Node::Integer(2))]);
    assert_eq!(json_object(r#" { "1" : 2 } "#), Ok(("", expected)));
}

#[test]
fn test_values() {
    assert_eq!(json_value(" 56 "), Ok(("", Node::Integer(56))));
    assert_eq!(json_value(" 78.0 "), Ok(("", Node::Float("78.0".into()))));
    assert_eq!(
        json_value(" 78.0 ").map(|(rest, node)| match node {
            Node::Float(text) => (rest, text.parse::<f64>().unwrap()),
            other => panic!("not a float: {:?}", other),
        }),
        Ok(("", 78.0))
    );
    // These two tests aren't relevant for JSON. They verify that `json_float`
    // will never mistake integers for floats in other grammars that might
    // allow a `.` or `e` character after a literal integer.
    assert_eq!(json_value("123else"), Ok(("else", Node::Integer(123))));
    assert_eq!(json_value("123.x"), Ok((".x", Node::Integer(123))));
    assert_eq!(json_value(r#" "Hello" "#), Ok(("", Node::Str("Hello".into()))));
}

#[test]
fn structures() {
    assert_eq!(parse("[ ]"), Ok(Node::Array(vec![])));
    assert_eq!(parse("{ }"), Ok(Node::Object(vec![])));
    assert_eq!(parse("[]"), Ok(Node::Array(vec![])));
    assert_eq!(parse("{}"), Ok(Node::Object(vec![])));
    assert_eq!(
        parse("[1,2,3]"),
        Ok(Node::Array(vec![Node::Integer(1), Node::Integer(2), Node::Integer(3)]))
    );
    assert_eq!(
        parse(r#"{"a": [true, null, {"b": "c"}], "d": -1.5e3}"#),
        Ok(Node::Object(vec![
            (
                "a".into(),
                Node::Array(vec![
                    Node::Bool(true),
                    Node::Null,
                    Node::Object(vec![("b".into(), Node::Str("c".into()))]),
                ])
            ),
            ("d".into(), Node::Float("-1.5e3".into())),
        ]))
    );
}

#[test]
fn no_trailing_comma() {
    assert_eq!(parse("[1,]"), Err(JSONParseError::Unparseable));
    assert_eq!(parse("{\"a\":1,}"), Err(JSONParseError::Unparseable));
    assert_eq!(json_array("[1,]"), Err(JSONParseError::Unparseable));
    assert_eq!(json_object("{\"a\":1,}"), Err(JSONParseError::Unparseable));
    assert_eq!(parse("[,]"), Err(JSONParseError::Unparseable));
    assert_eq!(parse("[,1]"), Err(JSONParseError::Unparseable));
    assert_eq!(parse("[1,,2]"), Err(JSONParseError::Unparseable));
    assert_eq!(parse("[1 2]"), Err(JSONParseError::Unparseable));
}

#[test]
fn ill_formed_structures() {
    assert_eq!(parse(""), Err(JSONParseError::Unparseable));
    assert_eq!(parse("   "), Err(JSONParseError::Unparseable));
    assert_eq!(parse("["), Err(JSONParseError::Unparseable));
    assert_eq!(parse("[1"), Err(JSONParseError::Unparseable));
    assert_eq!(parse("]"), Err(JSONParseError::Unparseable));
    assert_eq!(parse("{"), Err(JSONParseError::Unparseable));
    assert_eq!(parse("{\"a\"}"), Err(JSONParseError::Unparseable));
    assert_eq!(parse("{\"a\":}"), Err(JSONParseError::Unparseable));
    assert_eq!(parse("{\"a\" 1}"), Err(JSONParseError::Unparseable));
    assert_eq!(parse("{a: 1}"), Err(JSONParseError::Unparseable));
    assert_eq!(parse("{1: 1}"), Err(JSONParseError::Unparseable));
    assert_eq!(parse("[1] x"), Err(JSONParseError::Unparseable));
    assert_eq!(parse("1 2"), Err(JSONParseError::Unparseable));
    assert_eq!(parse("[1}"), Err(JSONParseError::Unparseable));
}

#[test]
fn whitespace_is_skipped() {
    assert_eq!(parse(" \t\r\n 7 \n"), Ok(Node::Integer(7)));
    assert_eq!(
        parse("\n[\t1 ,\r\n 2\n]\n"),
        Ok(Node::Array(vec![Node::Integer(1), Node::Integer(2)]))
    );
    assert_eq!(
        parse(" { \"k\"\n:\t[ ] } "),
        Ok(Node::Object(vec![("k".into(), Node::Array(vec![]))]))
    );
    assert_eq!(json_value("  true  false"), Ok(("false", Node::Bool(true))));
    // Other blank characters are no JSON whitespace.
    assert_eq!(parse("\u{b}1"), Err(JSONParseError::Unparseable));
    assert_eq!(parse("\u{a0}1"), Err(JSONParseError::Unparseable));
}

#[test]
fn repeated_keys_are_kept_in_order() {
    assert_eq!(
        parse(r#"{"a": 1, "b": 2, "a": 3}"#),
        Ok(Node::Object(vec![
            ("a".into(), Node::Integer(1)),
            ("b".into(), Node::Integer(2)),
            ("a".into(), Node::Integer(3)),
        ]))
    );
}

#[test]
fn value_leaves_the_rest_unread() {
    assert_eq!(json_value("[1, 2] , 3"), Ok((", 3", Node::Array(vec![Node::Integer(1), Node::Integer(2)]))));
    assert_eq!(json_value("{} {}"), Ok(("{}", Node::Object(vec![]))));
    assert_eq!(json_value("x"), Err(JSONParseError::Unparseable));
    assert_eq!(json_array("1"), Err(JSONParseError::Unparseable));
    assert_eq!(json_object("[]"), Err(JSONParseError::Unparseable));
}

#[test]
fn nesting_up_to_the_ceiling() {
    assert_eq!(MAX_DEPTH, 128);
    let mut expected = Node::Array(vec![]);
    for _ in 1..MAX_DEPTH {
        expected = Node::Array(vec![expected]);
    }
    assert_eq!(parse(&nested(MAX_DEPTH)), Ok(expected));
    assert_eq!(parse(&nested(MAX_DEPTH + 1)), Err(JSONParseError::TooDeep));
    assert_eq!(parse(&nested(10_000)), Err(JSONParseError::TooDeep));

    let mut text = String::new();
    for _ in 0..MAX_DEPTH + 1 {
        text.push_str("{\"k\":");
    }
    assert_eq!(parse(&text), Err(JSONParseError::TooDeep));
}

#[test]
fn values_by_position_and_depth() {
    let s = chars("x [[1]] y");
    assert_eq!(
        value_from(&s, 1, 2),
        Ok((8, Node::Array(vec![Node::Array(vec![Node::Integer(1)])])))
    );
    assert_eq!(value_from(&s, 1, 1), Err(JSONParseError::TooDeep));
    assert_eq!(value_from(&s, 1, 0), Err(JSONParseError::TooDeep));
    assert_eq!(value_from(&s, 0, 2), Err(JSONParseError::Unparseable));
    assert_eq!(value_from(&s, 4, 0), Ok((5, Node::Integer(1))));
    assert_eq!(value_from(&s, 9, 2), Err(JSONParseError::Unparseable));
    assert_eq!(value_from(&s, 100, 2), Err(JSONParseError::Unparseable));
}

#[test]
fn members_by_position() {
    let s = chars(r#""k" : [1] ,"#);
    assert_eq!(
        object_member(&s, 0, 1),
        Ok((10, ("k".to_string(), Node::Array(vec![Node::Integer(1)]))))
    );
    assert_eq!(object_member(&s, 0, 0), Err(JSONParseError::TooDeep));
    assert_eq!(object_member(&s, 1, 1), Err(JSONParseError::Unparseable));
    assert_eq!(object_member(&chars("\"k\" 1"), 0, 1), Err(JSONParseError::Unparseable));
    assert_eq!(object_member(&chars("\"k\":"), 0, 1), Err(JSONParseError::Unparseable));
}

#[test]
fn clone_is_deep() {
    let node = parse(r#"{"a": [1, 2.5, "x", null, true], "b": {}}"#).unwrap();
    let copy = node.clone();
    assert_eq!(copy, node);
}

#[test]
fn error_messages() {
    assert_eq!(JSONParseError::BadInt.message(), "bad integer");
    assert_eq!(JSONParseError::BadFloat.message(), "bad float");
    assert_eq!(JSONParseError::BadEscape.message(), "bad escape sequence");
    assert_eq!(JSONParseError::Unparseable.message(), "unknown parser error");
    assert_eq!(JSONParseError::TooDeep.message(), "nesting too deep");
    assert!(JSONParseError::Unparseable.is_recoverable());
    assert!(!JSONParseError::BadInt.is_recoverable());
    assert!(!JSONParseError::BadFloat.is_recoverable());
    assert!(!JSONParseError::BadEscape.is_recoverable());
    assert!(!JSONParseError::TooDeep.is_recoverable());
}

#[test]
fn structures_by_position() {
    let s = chars(r#"x [1, {"a": []}] {"k": [2]} y"#);
    assert_eq!(
        array_from(&s, 1, 3),
        Ok((
            17,
            Node::Array(vec![
                Node::Integer(1),
                Node::Object(vec![("a".into(), Node::Array(vec![]))]),
            ])
        ))
    );
    assert_eq!(array_from(&s, 1, 2), Err(JSONParseError::TooDeep));
    assert_eq!(array_from(&s, 17, 3), Err(JSONParseError::Unparseable));
    assert_eq!(
        object_from(&s, 16, 2),
        Ok((28, Node::Object(vec![("k".into(), Node::Array(vec![Node::Integer(2)]))])))
    );
    assert_eq!(object_from(&s, 17, 1), Err(JSONParseError::TooDeep));
    assert_eq!(object_from(&s, 2, 3), Err(JSONParseError::Unparseable));
    assert_eq!(object_from(&s, 400, 3), Err(JSONParseError::Unparseable));
}
