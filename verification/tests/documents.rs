use json_tree::{json_value, parse, JSONParseError, Node};

/// A text for a tree: no whitespace, strings escaped where they must be.
fn write(node: &Node, out: &mut String) {
    match node {
        Node::Null => out.push_str("null"),
        Node::Bool(true) => out.push_str("true"),
        Node::Bool(false) => out.push_str("false"),
        Node::Integer(n) => out.push_str(&n.to_string()),
        Node::Float(text) => out.push_str(text),
        Node::Str(text) => write_string(text, out),
        Node::Array(items) => {
            out.push('[');
            for (k, item) in items.iter().enumerate() {
                if k > 0 {
                    out.push(',');
                }
                write(item, out);
            }
            out.push(']');
        }
        Node::Object(members) => {
            out.push('{');
            for (k, (key, value)) in members.iter().enumerate() {
                if k > 0 {
                    out.push(',');
                }
                write_string(key, out);
                out.push(':');
                write(value, out);
            }
            out.push('}');
        }
    }
}

fn write_string(text: &str, out: &mut String) {
    out.push('"');
    out.push_str(&escape8259::escape(text));
    out.push('"');
}

fn text_of(node: &Node) -> String {
    let mut out = String::new();
    write(node, &mut out);
    out
}

#[test]
fn valid_documents_parse() {
    let image = r#"
      {
        "Image": {
            "Width":  800,
            "Height": 600,
            "Title":  "View from 15th Floor",
            "Thumbnail": {
                "Url":    "http://www.example.com/image/481989943",
                "Height": 125,
                "Width":  100
            },
            "Animated" : false,
            "IDs": [116, 943, 234, 38793]
          }
      }
    "#;
    let expected = Node::Object(vec![(
        "Image".into(),
        Node::Object(vec![
            ("Width".into(), Node::Integer(800)),
            ("Height".into(), Node::Integer(600)),
            ("Title".into(), Node::Str("View from 15th Floor".into())),
            (
                "Thumbnail".into(),
                Node::Object(vec![
                    ("Url".into(), Node::Str("http://www.example.com/image/481989943".into())),
                    ("Height".into(), Node::Integer(125)),
                    ("Width".into(), Node::Integer(100)),
                ]),
            ),
            ("Animated".into(), Node::Bool(false)),
            (
                "IDs".into(),
                Node::Array(vec![
                    Node::Integer(116),
                    Node::Integer(943),
                    Node::Integer(234),
                    Node::Integer(38793),
                ]),
            ),
        ]),
    )]);
    assert_eq!(parse(image), Ok(expected));

    let places = r#"[
        { "precision": "zip", "Latitude": 37.7668, "Longitude": -122.3959, "Zip": "94107" },
        { "precision": "zip", "Latitude": 37.371991, "Longitude": -122.026020, "Zip": "94085" }
    ]"#;
    let place = |lat: &str, long: &str, zip: &str| {
        Node::Object(vec![
            ("precision".into(), Node::Str("zip".into())),
            ("Latitude".into(), Node::Float(lat.into())),
            ("Longitude".into(), Node::Float(long.into())),
            ("Zip".into(), Node::Str(zip.into())),
        ])
    };
    assert_eq!(
        parse(places),
        Ok(Node::Array(vec![
            place("37.7668", "-122.3959", "94107"),
            place("37.371991", "-122.026020", "94085"),
        ]))
    );

    assert_eq!(parse("\"Hello world!\""), Ok(Node::Str("Hello world!".into())));
    assert_eq!(parse("42"), Ok(Node::Integer(42)));
    assert_eq!(parse("true"), Ok(Node::Bool(true)));
    assert_eq!(parse(" null "), Ok(Node::Null));
    assert_eq!(parse("-0"), Ok(Node::Integer(0)));
    assert_eq!(parse("1E400"), Ok(Node::Float("1E400".into())));
}

#[test]
fn valid_documents_beyond_the_limits_are_refused_with_their_reason() {
    assert_eq!(parse("9223372036854775808"), Err(JSONParseError::BadInt));
    assert_eq!(parse("\"\\udead\""), Err(JSONParseError::BadEscape));
    assert_eq!(parse(&"[".repeat(129)), Err(JSONParseError::TooDeep));
}

#[test]
fn text_of_a_tree_parses_back_to_the_tree() {
    let trees = vec![
        Node::Null,
        Node::Bool(true),
        Node::Bool(false),
        Node::Integer(0),
        Node::Integer(-7),
        Node::Integer(i64::MAX),
        Node::Integer(i64::MIN),
        Node::Float("-1.25e-7".into()),
        Node::Str("".into()),
        Node::Str("plain text".into()),
        Node::Str("quote \" backslash \\ slash / newline \n tab \t nul \0 bell \u{7}".into()),
        Node::Str("\u{e9}\u{306e}\u{1D11E}".into()),
        Node::Array(vec![]),
        Node::Object(vec![]),
        Node::Array(vec![Node::Array(vec![Node::Array(vec![])]), Node::Object(vec![])]),
        Node::Object(vec![
            ("a".into(), Node::Integer(1)),
            ("a".into(), Node::Array(vec![Node::Null, Node::Float("2.5".into())])),
            ("k \"q\"".into(), Node::Object(vec![("".into(), Node::Str("v".into()))])),
        ]),
    ];
    for tree in trees {
        let text = text_of(&tree);
        assert_eq!(parse(&text), Ok(tree.clone()), "text: {}", text);
        assert_eq!(json_value(&text), Ok(("", tree)), "text: {}", text);
    }
}

#[test]
fn parsed_text_written_and_parsed_again_is_the_same_tree() {
    let texts = [
        r#" { "a" : [ 1 , 2.0 , "x\ny" , null , true , false ] , "b" : { "c" : -3 } } "#,
        r#"["\u0041\uD834\uDD1E", 1e5, -0.0, []]"#,
        "[[[[[[[[]]]]]]]]",
    ];
    for text in texts {
        let tree = parse(text).unwrap();
        assert_eq!(parse(&text_of(&tree)), Ok(tree));
    }
}
