use json_tree::{json_bool, json_float, json_integer, json_null, json_value, parse};
use json_tree::number::{float_from, integer_from};
use json_tree::parser::{bool_from, null_from, scalar_from};
use json_tree::{JSONParseError, Node};

/// The number that a float node's text writes.
fn number(node: &Node) -> f64 {
    match node {
        Node::Float(text) => text.parse::<f64>().unwrap(),
        other => panic!("not a float: {:?}", other),
    }
}

/// A float result with the node replaced by its number.
fn as_number(r: Result<(&str, Node), JSONParseError>) -> Result<(&str, f64), JSONParseError> {
    r.map(|(rest, node)| (rest, number(&node)))
}

#[test]
fn test_bool() {
    assert_eq!(json_bool("false"), Ok(("", Node::Bool(false))));
    assert_eq!(json_bool("true"), Ok(("", Node::Bool(true))));
    assert!(json_bool("foo").is_err());
}

#[test]
fn test_null() {
    assert_eq!(json_null("null"), Ok(("", Node::Null)));
}

#[test]
fn test_integer() {
    assert_eq!(json_integer("42"), Ok(("", Node::Integer(42))));
    assert_eq!(json_integer("-123"), Ok(("", Node::Integer(-123))));
    assert_eq!(json_integer("0"), Ok(("", Node::Integer(0))));
    assert_eq!(json_integer("01"), Ok(("1", Node::Integer(0))));
    assert_eq!(json_integer("9999999999999999999"), Err(JSONParseError::BadInt));
}

#[test]
fn test_float() {
    assert_eq!(as_number(json_float("42.0")), Ok(("", 42.0)));
    assert_eq!(as_number(json_float("-123.99")), Ok(("", -123.99)));
    assert_eq!(as_number(json_float("6.02214086e23")), Ok(("", 6.02214086e23)));
    assert_eq!(as_number(json_float("-1e6")), Ok(("", -1000000.0)));
    assert_eq!(as_number(json_float("1e9999")), Ok(("", f64::INFINITY)));
}

#[test]
fn float_keeps_the_text_of_the_literal() {
    assert_eq!(json_float("42.0"), Ok(("", Node::Float("42.0".into()))));
    assert_eq!(json_float("-123.99"), Ok(("", Node::Float("-123.99".into()))));
    assert_eq!(json_float("6.02214086e23,"), Ok((",", Node::Float("6.02214086e23".into()))));
    assert_eq!(json_float("1E+2 "), Ok((" ", Node::Float("1E+2".into()))));
    assert_eq!(json_float("0.5e-3]"), Ok(("]", Node::Float("0.5e-3".into()))));
}

#[test]
fn float_needs_a_fraction_or_an_exponent() {
    assert_eq!(json_float("123"), Err(JSONParseError::Unparseable));
    assert_eq!(json_float("123."), Err(JSONParseError::Unparseable));
    assert_eq!(json_float("123.x"), Err(JSONParseError::Unparseable));
    assert_eq!(json_float("123e"), Err(JSONParseError::Unparseable));
    assert_eq!(json_float("123e+"), Err(JSONParseError::Unparseable));
    assert_eq!(json_float(".5"), Err(JSONParseError::Unparseable));
    assert_eq!(json_float("-"), Err(JSONParseError::Unparseable));
    assert_eq!(json_float(""), Err(JSONParseError::Unparseable));
}

#[test]
fn float_stops_where_the_grammar_stops() {
    assert_eq!(json_float("1.5e"), Ok(("e", Node::Float("1.5".into()))));
    assert_eq!(json_float("1.5.5"), Ok((".5", Node::Float("1.5".into()))));
    assert_eq!(json_float("1e5e5"), Ok(("e5", Node::Float("1e5".into()))));
    assert_eq!(json_float("01.5"), Err(JSONParseError::Unparseable));
    assert_eq!(json_float("0.5"), Ok(("", Node::Float("0.5".into()))));
    assert_eq!(json_float("-0.0"), Ok(("", Node::Float("-0.0".into()))));
}

#[test]
fn integer_and_float_are_told_apart() {
    assert_eq!(parse("123"), Ok(Node::Integer(123)));
    assert_eq!(parse("123.0").map(|n| number(&n)), Ok(123.0));
    assert_eq!(parse("123e5").map(|n| number(&n)), Ok(1.23e7));
    assert_eq!(parse("123.0"), Ok(Node::Float("123.0".into())));
    assert_eq!(parse("123e5"), Ok(Node::Float("123e5".into())));
    assert_eq!(json_value("123else"), Ok(("else", Node::Integer(123))));
}

#[test]
fn leading_zero_is_a_token_of_its_own() {
    assert_eq!(json_integer("01"), Ok(("1", Node::Integer(0))));
    assert_eq!(json_value("01"), Ok(("1", Node::Integer(0))));
    assert_eq!(json_integer("-01"), Ok(("1", Node::Integer(0))));
    assert_eq!(parse("01"), Err(JSONParseError::Unparseable));
}

#[test]
fn integer_overflow_is_bad_integer() {
    assert_eq!(json_integer("9999999999999999999"), Err(JSONParseError::BadInt));
    assert_eq!(json_value("9999999999999999999"), Err(JSONParseError::BadInt));
    assert_eq!(parse("9999999999999999999"), Err(JSONParseError::BadInt));
    assert_eq!(parse("[1, 9999999999999999999]"), Err(JSONParseError::BadInt));
    assert_eq!(parse("{\"a\": -9999999999999999999}"), Err(JSONParseError::BadInt));
}

#[test]
fn integer_range_ends() {
    assert_eq!(json_integer("9223372036854775807"), Ok(("", Node::Integer(i64::MAX))));
    assert_eq!(json_integer("9223372036854775808"), Err(JSONParseError::BadInt));
    assert_eq!(json_integer("-9223372036854775808"), Ok(("", Node::Integer(i64::MIN))));
    assert_eq!(json_integer("-9223372036854775809"), Err(JSONParseError::BadInt));
    assert_eq!(json_integer("-0"), Ok(("", Node::Integer(0))));
    assert_eq!(
        json_integer("100000000000000000000000000000000000000000"),
        Err(JSONParseError::BadInt)
    );
}

#[test]
fn integer_does_not_match() {
    assert_eq!(json_integer(""), Err(JSONParseError::Unparseable));
    assert_eq!(json_integer("-"), Err(JSONParseError::Unparseable));
    assert_eq!(json_integer("+1"), Err(JSONParseError::Unparseable));
    assert_eq!(json_integer("a1"), Err(JSONParseError::Unparseable));
    assert_eq!(json_integer(" 1"), Err(JSONParseError::Unparseable));
}

#[test]
fn float_overflow_is_infinity() {
    let node = parse("1e9999").unwrap();
    assert_eq!(number(&node), f64::INFINITY);
    let node = parse("-1e9999").unwrap();
    assert_eq!(number(&node), f64::NEG_INFINITY);
}

#[test]
fn literals_are_exact_text() {
    assert_eq!(json_null("nullable"), Ok(("able", Node::Null)));
    assert_eq!(json_bool("truest"), Ok(("st", Node::Bool(true))));
    assert_eq!(json_bool("falsehood"), Ok(("hood", Node::Bool(false))));
    assert_eq!(json_null("Null"), Err(JSONParseError::Unparseable));
    assert_eq!(json_null("nul"), Err(JSONParseError::Unparseable));
    assert_eq!(json_bool("True"), Err(JSONParseError::Unparseable));
    assert_eq!(json_bool("fals"), Err(JSONParseError::Unparseable));
    assert_eq!(json_bool(""), Err(JSONParseError::Unparseable));
    assert_eq!(parse("nullable"), Err(JSONParseError::Unparseable));
}

#[test]
fn scalars_by_position() {
    let s: Vec<char> = "[-12,3.5e1,true,false,null,\"s\",007]".chars().collect();
    assert_eq!(integer_from(&s, 1), Ok((4, Node::Integer(-12))));
    assert_eq!(integer_from(&s, 0), Err(JSONParseError::Unparseable));
    assert_eq!(integer_from(&s, 5), Ok((6, Node::Integer(3))));
    assert_eq!(float_from(&s, 5), Ok((10, Node::Float("3.5e1".into()))));
    assert_eq!(float_from(&s, 1), Err(JSONParseError::Unparseable));
    assert_eq!(bool_from(&s, 11), Ok((15, Node::Bool(true))));
    assert_eq!(bool_from(&s, 16), Ok((21, Node::Bool(false))));
    assert_eq!(bool_from(&s, 12), Err(JSONParseError::Unparseable));
    assert_eq!(null_from(&s, 22), Ok((26, Node::Null)));
    assert_eq!(null_from(&s, 23), Err(JSONParseError::Unparseable));
    assert_eq!(null_from(&s, 36), Err(JSONParseError::Unparseable));
    assert_eq!(scalar_from(&s, 1), Ok((4, Node::Integer(-12))));
    assert_eq!(scalar_from(&s, 5), Ok((10, Node::Float("3.5e1".into()))));
    assert_eq!(scalar_from(&s, 11), Ok((15, Node::Bool(true))));
    assert_eq!(scalar_from(&s, 22), Ok((26, Node::Null)));
    assert_eq!(scalar_from(&s, 27), Ok((30, Node::Str("s".into()))));
    assert_eq!(scalar_from(&s, 31), Ok((32, Node::Integer(0))));
    assert_eq!(scalar_from(&s, 0), Err(JSONParseError::Unparseable));
    assert_eq!(scalar_from(&s, 99), Err(JSONParseError::Unparseable));
}
