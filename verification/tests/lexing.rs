use json_tree::entry::chars_of;
use json_tree::lexical::{
    digit0, digit1to9, exp, float_body, frac, integer_body, is_digit_char, is_hex_digit_char,
    is_space_char, multispace0, spacey, uint,
};

fn chars(text: &str) -> Vec<char> {
    text.chars().collect()
}

#[test]
fn characters_of_a_text() {
    assert_eq!(chars_of(""), Vec::<char>::new());
    assert_eq!(chars_of("a\u{e9}\u{1D11E}b"), vec!['a', '\u{e9}', '\u{1D11E}', 'b']);
}

#[test]
fn character_classes() {
    for c in [' ', '\t', '\n', '\r'] {
        assert!(is_space_char(c));
    }
    for c in ['\u{b}', '\u{c}', '\u{a0}', 'a', '\0'] {
        assert!(!is_space_char(c));
    }
    for c in ['0', '5', '9'] {
        assert!(is_digit_char(c));
        assert!(is_hex_digit_char(c));
    }
    for c in ['/', ':', 'a', '\u{661}'] {
        assert!(!is_digit_char(c));
    }
    for c in ['a', 'f', 'A', 'F'] {
        assert!(is_hex_digit_char(c));
    }
    for c in ['g', 'G', '@', '`', ' '] {
        assert!(!is_hex_digit_char(c));
    }
}

#[test]
fn runs() {
    let s = chars(" \t\r\n12 3");
    assert_eq!(multispace0(&s, 0), 4);
    assert_eq!(multispace0(&s, 4), 4);
    assert_eq!(multispace0(&s, 6), 7);
    assert_eq!(multispace0(&s, 8), 8);
    assert_eq!(multispace0(&s, 20), 20);
    assert_eq!(digit0(&s, 4), 6);
    assert_eq!(digit0(&s, 0), 0);
    assert_eq!(digit0(&s, 7), 8);
    assert_eq!(digit0(&s, 20), 20);
}

#[test]
fn unsigned_integers() {
    assert_eq!(uint(&chars("0"), 0), Some(1));
    assert_eq!(uint(&chars("012"), 0), Some(1));
    assert_eq!(uint(&chars("120x"), 0), Some(3));
    assert_eq!(uint(&chars("x120"), 1), Some(4));
    assert_eq!(uint(&chars("x"), 0), None);
    assert_eq!(uint(&chars("-1"), 0), None);
    assert_eq!(uint(&chars(""), 0), None);
    assert_eq!(uint(&chars("1"), 5), None);
    assert!(digit1to9(&chars("7"), 0));
    assert!(!digit1to9(&chars("0"), 0));
    assert!(!digit1to9(&chars("a"), 0));
    assert!(!digit1to9(&chars("7"), 1));
}

#[test]
fn number_shapes() {
    assert_eq!(integer_body(&chars("-12a"), 0), Some(3));
    assert_eq!(integer_body(&chars("12a"), 0), Some(2));
    assert_eq!(integer_body(&chars("--1"), 0), None);
    assert_eq!(integer_body(&chars("-"), 0), None);
    assert_eq!(frac(&chars(".25x"), 0), Some(3));
    assert_eq!(frac(&chars("."), 0), None);
    assert_eq!(frac(&chars(".x"), 0), None);
    assert_eq!(frac(&chars("25"), 0), None);
    assert_eq!(exp(&chars("e10"), 0), Some(3));
    assert_eq!(exp(&chars("E-10,"), 0), Some(4));
    assert_eq!(exp(&chars("e+1"), 0), Some(3));
    assert_eq!(exp(&chars("e"), 0), None);
    assert_eq!(exp(&chars("e-"), 0), None);
    assert_eq!(exp(&chars("e--1"), 0), None);
    assert_eq!(exp(&chars("x1"), 0), None);
    assert_eq!(float_body(&chars("-1.5e+3,"), 0), Some(7));
    assert_eq!(float_body(&chars("1e3"), 0), Some(3));
    assert_eq!(float_body(&chars("1.5"), 0), Some(3));
    assert_eq!(float_body(&chars("15"), 0), None);
    assert_eq!(float_body(&chars("1.e3"), 0), None);
    assert_eq!(float_body(&chars("x1.5"), 1), Some(4));
}

#[test]
fn punctuation_with_whitespace() {
    let s = chars(" \t[\n 1 ,2]");
    assert_eq!(spacey(&s, 0, '['), Some(5));
    assert_eq!(spacey(&s, 2, '['), Some(5));
    assert_eq!(spacey(&s, 0, ','), None);
    assert_eq!(spacey(&s, 6, ','), Some(8));
    assert_eq!(spacey(&s, 7, ','), Some(8));
    assert_eq!(spacey(&s, 9, ']'), Some(10));
    assert_eq!(spacey(&s, 10, ']'), None);
    assert_eq!(spacey(&s, 30, ']'), None);
    assert_eq!(spacey(&chars(" : "), 0, ':'), Some(3));
}
