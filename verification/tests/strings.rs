use json_tree::lexical::{escape_code, nonescaped_string, string_body};
use json_tree::text::{string_from, string_literal, string_outcome};
use json_tree::{is_nonescaped_string_char, json_string, parse, JSONParseError, Node};

fn chars(text: &str) -> Vec<char> {
    text.chars().collect()
}

#[test]
fn test_string() {
    // Plain Unicode strings with no escaping
    assert_eq!(json_string(r#""""#), Ok(("", Node::Str("".into()))));
    assert_eq!(json_string(r#""Hello""#), Ok(("", Node::Str("Hello".into()))));
    assert_eq!(json_string(r#""„ÅÆ""#), Ok(("", Node::Str("„ÅÆ".into()))));
    assert_eq!(json_string(r#""ùÑû""#), Ok(("", Node::Str("ùÑû".into()))));

    // valid 2-character escapes
    assert_eq!(json_string(r#""  \\  ""#), Ok(("", Node::Str("  \\  ".into()))));
    assert_eq!(json_string(r#""  \"  ""#), Ok(("", Node::Str("  \"  ".into()))));

    // valid 6-character escapes
    assert_eq!(json_string(r#""\u0000""#), Ok(("", Node::Str("\x00".into()))));
    assert_eq!(json_string(r#""\u00DF""#), Ok(("", Node::Str("\u{DF}".into()))));
    assert_eq!(json_string(r#""\uD834\uDD1E""#), Ok(("", Node::Str("\u{1D11E}".into()))));

    // Invalid because surrogate characters must come in pairs
    assert!(json_string(r#""\ud800""#).is_err());
    // Unknown 2-character escape
    assert!(json_string(r#""\x""#).is_err());
    // Not enough hex digits
    assert!(json_string(r#""\u""#).is_err());
    assert!(json_string(r#""\u001""#).is_err());
    // Naked control character
    assert!(json_string(r#""\x0a""#).is_err());
    // Not a JSON string because it's not wrapped in quotes
    assert!(json_string("abc").is_err());
    // An unterminated string (because the trailing quote is escaped)
    assert!(json_string(r#""\""#).is_err());

    // Parses correctly but has escape errors due to incomplete surrogate pair.
    assert_eq!(json_string(r#""\ud800""#), Err(JSONParseError::BadEscape));
}

#[test]
fn plain_unicode_text_is_kept() {
    assert_eq!(json_string("\"\u{306E}\""), Ok(("", Node::Str("\u{306E}".into()))));
    assert_eq!(json_string("\"\u{1D11E}\" x"), Ok((" x", Node::Str("\u{1D11E}".into()))));
}

#[test]
fn escapes_are_decoded() {
    assert_eq!(parse("\"\\u0041\""), Ok(Node::Str("A".into())));
    assert_eq!(parse("\"\\uD834\\uDD1E\""), Ok(Node::Str("\u{1D11E}".into())));
    assert_eq!(parse("\"\\ud800\""), Err(JSONParseError::BadEscape));
    assert_eq!(
        parse(r#""\"\\\/\b\f\n\r\t""#),
        Ok(Node::Str("\"\\/\u{8}\u{c}\n\r\t".into()))
    );
    assert_eq!(parse(r#""a\u00e9b""#), Ok(Node::Str("a\u{e9}b".into())));
    assert_eq!(parse(r#""\u004a\u004A""#), Ok(Node::Str("JJ".into())));
}

#[test]
fn surrogates_must_pair() {
    assert_eq!(parse(r#""\uD834""#), Err(JSONParseError::BadEscape));
    assert_eq!(parse(r#""\uDD1E""#), Err(JSONParseError::BadEscape));
    assert_eq!(parse(r#""\uDD1E\uD834""#), Err(JSONParseError::BadEscape));
    assert_eq!(parse(r#""\uD834x""#), Err(JSONParseError::BadEscape));
    assert_eq!(parse(r#""\uD834\n""#), Err(JSONParseError::BadEscape));
    assert_eq!(parse(r#""\uD834\uD834""#), Err(JSONParseError::BadEscape));
    assert_eq!(parse(r#"["ok", "\ud800"]"#), Err(JSONParseError::BadEscape));
    assert_eq!(parse(r#"{"\ud800": 1}"#), Err(JSONParseError::BadEscape));
}

#[test]
fn ill_shaped_escapes_do_not_lex() {
    assert_eq!(json_string(r#""\x""#), Err(JSONParseError::Unparseable));
    assert_eq!(json_string(r#""\u""#), Err(JSONParseError::Unparseable));
    assert_eq!(json_string(r#""\u001""#), Err(JSONParseError::Unparseable));
    assert_eq!(json_string(r#""\u00g1""#), Err(JSONParseError::Unparseable));
    assert_eq!(json_string(r#""\u+041""#), Err(JSONParseError::Unparseable));
    assert_eq!(json_string(r#""\U0041""#), Err(JSONParseError::Unparseable));
    assert_eq!(json_string("\"\n\""), Err(JSONParseError::Unparseable));
    assert_eq!(json_string("\"\u{1f}\""), Err(JSONParseError::Unparseable));
    assert_eq!(json_string(r#""\""#), Err(JSONParseError::Unparseable));
    assert_eq!(json_string(r#""abc"#), Err(JSONParseError::Unparseable));
    assert_eq!(json_string("abc"), Err(JSONParseError::Unparseable));
    assert_eq!(json_string(""), Err(JSONParseError::Unparseable));
}

#[test]
fn string_character_class() {
    assert!(is_nonescaped_string_char(' '));
    assert!(is_nonescaped_string_char('!'));
    assert!(is_nonescaped_string_char('#'));
    assert!(is_nonescaped_string_char('['));
    assert!(is_nonescaped_string_char(']'));
    assert!(is_nonescaped_string_char('\u{7f}'));
    assert!(is_nonescaped_string_char('\u{10FFFF}'));
    assert!(!is_nonescaped_string_char('"'));
    assert!(!is_nonescaped_string_char('\\'));
    assert!(!is_nonescaped_string_char('\u{1f}'));
    assert!(!is_nonescaped_string_char('\n'));
    assert!(!is_nonescaped_string_char('\0'));
}

#[test]
fn string_lexing_by_position() {
    let s = chars(r#"ab\n\u12aFcd"x"#);
    assert_eq!(nonescaped_string(&s, 0), Some(2));
    assert_eq!(nonescaped_string(&s, 2), None);
    assert_eq!(escape_code(&s, 2), Some(4));
    assert_eq!(escape_code(&s, 4), Some(10));
    assert_eq!(escape_code(&s, 0), None);
    assert_eq!(string_body(&s, 0), 12);
    assert_eq!(string_body(&s, 12), 12);
    assert_eq!(string_body(&s, 13), 14);
    assert_eq!(string_body(&s, 14), 14);
    assert_eq!(string_body(&s, 99), 99);
    assert_eq!(escape_code(&chars("\\"), 0), None);
    assert_eq!(escape_code(&chars("\\u12"), 0), None);
    assert_eq!(escape_code(&chars("\\u123"), 0), None);
    assert_eq!(escape_code(&chars("\\u1234"), 0), Some(6));
}

#[test]
fn string_literal_by_position() {
    let s = chars(r#"x"k\u0041":1"#);
    assert_eq!(string_literal(&s, 1), Ok((10, "kA".to_string())));
    assert_eq!(string_literal(&s, 0), Err(JSONParseError::Unparseable));
    assert_eq!(string_literal(&s, 9), Err(JSONParseError::Unparseable));
    assert_eq!(string_literal(&s, 50), Err(JSONParseError::Unparseable));
}

#[test]
fn string_nodes_by_position() {
    let s = chars(r#"["a\tb", "\ud800"]"#);
    assert_eq!(string_from(&s, 1), Ok((7, Node::Str("a\tb".into()))));
    assert_eq!(string_from(&s, 9), Err(JSONParseError::BadEscape));
    assert_eq!(string_from(&s, 0), Err(JSONParseError::Unparseable));
}

#[test]
fn outcome_of_decoding() {
    assert_eq!(string_outcome(5, Ok("text".to_string())), Ok((5, "text".to_string())));
    assert_eq!(string_outcome(0, Ok(String::new())), Ok((0, String::new())));
    assert_eq!(
        string_outcome(5, Err(escape8259::UnescapeError {})),
        Err(JSONParseError::BadEscape)
    );
}
