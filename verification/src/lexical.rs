//! Lexical primitives: character classes and the low-level recognizers for
//! whitespace, digits, number shapes and string bodies.
//!
//! Every recognizer works at a position `i` of a character buffer and, where
//! it matches, gives the position just past the match.

use vstd::prelude::*;

verus! {

/// Space, tab, line feed or carriage return.
pub open spec fn is_space(c: char) -> bool {
    c == ' ' || c == '\t' || c == '\n' || c == '\r'
}

/// An ASCII decimal digit.
pub open spec fn is_digit(c: char) -> bool {
    0x30 <= c as u32 <= 0x39
}

/// An ASCII hexadecimal digit, in either case.
pub open spec fn is_hex_digit(c: char) -> bool {
    is_digit(c) || 0x41 <= c as u32 <= 0x46 || 0x61 <= c as u32 <= 0x66
}

/// A character that may stand unescaped inside a string literal: no control
/// character, no double quote, no backslash.
pub open spec fn plain_char(c: char) -> bool {
    c as u32 >= 0x20 && c as u32 != 0x22 && c as u32 != 0x5C
}

/// The character after the backslash of a two-character escape.
pub open spec fn simple_escape(c: char) -> bool {
    c == '"' || c == '\\' || c == '/' || c == 'b' || c == 'f' || c == 'n' || c == 'r' || c == 't'
}

/// Position `i` lies inside `s` and holds `c`.
pub open spec fn char_at(s: Seq<char>, i: int, c: char) -> bool {
    0 <= i < s.len() && s[i] == c
}

/// Position `i` lies inside `s` and holds a decimal digit.
pub open spec fn digit_at(s: Seq<char>, i: int) -> bool {
    0 <= i < s.len() && is_digit(s[i])
}

/// Position `i` lies inside `s` and holds a hexadecimal digit.
pub open spec fn hex_at(s: Seq<char>, i: int) -> bool {
    0 <= i < s.len() && is_hex_digit(s[i])
}

/// The characters of `word` stand in `s` from position `i` on.
pub open spec fn word_at(s: Seq<char>, i: int, word: Seq<char>) -> bool {
    0 <= i && i + word.len() <= s.len() && s.subrange(i, i + word.len()) == word
}

/// The end of the longest run of whitespace that starts at `i`.
pub open spec fn ws_end(s: Seq<char>, i: int) -> int
    decreases s.len() - i,
{
    if 0 <= i < s.len() && is_space(s[i]) {
        ws_end(s, i + 1)
    } else {
        i
    }
}

/// The character `c` with whitespace before and after it: where it ends, if
/// it stands at `i`.
pub open spec fn spaced_end(s: Seq<char>, i: int, c: char) -> Option<int> {
    if char_at(s, ws_end(s, i), c) {
        Some(ws_end(s, ws_end(s, i) + 1))
    } else {
        None
    }
}

/// The end of the longest run of decimal digits that starts at `i`.
pub open spec fn digits_end(s: Seq<char>, i: int) -> int
    decreases s.len() - i,
{
    if 0 <= i < s.len() && is_digit(s[i]) {
        digits_end(s, i + 1)
    } else {
        i
    }
}

/// The end of the longest run of plain string characters that starts at `i`.
pub open spec fn plain_end(s: Seq<char>, i: int) -> int
    decreases s.len() - i,
{
    if 0 <= i < s.len() && plain_char(s[i]) {
        plain_end(s, i + 1)
    } else {
        i
    }
}

/// An unsigned integer body: a single `0`, or a digit from 1 to 9 followed by
/// any number of digits.
pub open spec fn uint_end(s: Seq<char>, i: int) -> Option<int> {
    if char_at(s, i, '0') {
        Some(i + 1)
    } else if digit_at(s, i) {
        Some(digits_end(s, i + 1))
    } else {
        None
    }
}

/// The position after an optional minus sign at `i`.
pub open spec fn sign_end(s: Seq<char>, i: int) -> int {
    if char_at(s, i, '-') {
        i + 1
    } else {
        i
    }
}

/// An optional minus sign, then an unsigned integer body.
pub open spec fn integer_body_end(s: Seq<char>, i: int) -> Option<int> {
    uint_end(s, sign_end(s, i))
}

/// A fraction part: a decimal point, then one or more digits.
pub open spec fn frac_end(s: Seq<char>, i: int) -> Option<int> {
    if char_at(s, i, '.') && digit_at(s, i + 1) {
        Some(digits_end(s, i + 1))
    } else {
        None
    }
}

/// The position after an optional `+` or `-` at `i`.
pub open spec fn exp_sign_end(s: Seq<char>, i: int) -> int {
    if char_at(s, i, '+') || char_at(s, i, '-') {
        i + 1
    } else {
        i
    }
}

/// An exponent part: `e` or `E`, an optional sign, then one or more digits.
pub open spec fn exp_end(s: Seq<char>, i: int) -> Option<int> {
    if (char_at(s, i, 'e') || char_at(s, i, 'E')) && digit_at(s, exp_sign_end(s, i + 1)) {
        Some(digits_end(s, exp_sign_end(s, i + 1)))
    } else {
        None
    }
}

/// A float body: an integer body followed by a fraction part, an exponent
/// part, or both in that order.
pub open spec fn float_body_end(s: Seq<char>, i: int) -> Option<int> {
    match integer_body_end(s, i) {
        None => None,
        Some(j) => match frac_end(s, j) {
            Some(k) => match exp_end(s, k) {
                Some(e) => Some(e),
                None => Some(k),
            },
            None => exp_end(s, j),
        },
    }
}

/// An escape sequence by its shape: a backslash and one of the eight
/// single-character escapes, or `\u` and exactly four hexadecimal digits.
pub open spec fn escape_end(s: Seq<char>, i: int) -> Option<int> {
    if char_at(s, i, '\\') && i + 1 < s.len() {
        if simple_escape(s[i + 1]) {
            Some(i + 2)
        } else if s[i + 1] == 'u' && hex_at(s, i + 2) && hex_at(s, i + 3) && hex_at(s, i + 4)
            && hex_at(s, i + 5) {
            Some(i + 6)
        } else {
            None
        }
    } else {
        None
    }
}

/// The end of a string body: plain characters and escape sequences, as many
/// as follow one another from `i` on.
pub open spec fn string_body_end(s: Seq<char>, i: int) -> int
    decreases s.len() - i,
{
    if 0 <= i < s.len() && plain_char(s[i]) {
        string_body_end(s, i + 1)
    } else {
        match escape_end(s, i) {
            Some(j) => string_body_end(s, j),
            None => i,
        }
    }
}

/// The whole of `t` is an integer literal.
pub open spec fn is_integer_text(t: Seq<char>) -> bool {
    integer_body_end(t, 0) == Some(t.len() as int)
}

/// The whole of `t` is a float literal.
pub open spec fn is_float_text(t: Seq<char>) -> bool {
    float_body_end(t, 0) == Some(t.len() as int)
}

/// The whole of `t` is a string body: unescaped characters and escape
/// sequences.
pub open spec fn is_string_body(t: Seq<char>) -> bool {
    string_body_end(t, 0) == t.len()
}

/// Whether `c` is JSON whitespace.
pub fn is_space_char(c: char) -> (b: bool)
    ensures
        b == is_space(c),
{
    c == ' ' || c == '\t' || c == '\n' || c == '\r'
}

/// Whether `c` is an ASCII decimal digit.
pub fn is_digit_char(c: char) -> (b: bool)
    ensures
        b == is_digit(c),
{
    let v: u32 = c as u32;
    0x30 <= v && v <= 0x39
}

/// Whether `c` is an ASCII hexadecimal digit.
pub fn is_hex_digit_char(c: char) -> (b: bool)
    ensures
        b == is_hex_digit(c),
{
    let v: u32 = c as u32;
    (0x30 <= v && v <= 0x39) || (0x41 <= v && v <= 0x46) || (0x61 <= v && v <= 0x66)
}

/// Whether `c` may stand unescaped inside a string literal: it is no control
/// character (0x00 to 0x1F), no double quote (0x22) and no backslash (0x5C).
pub fn is_nonescaped_string_char(c: char) -> (b: bool)
    ensures
        b == plain_char(c),
{
    let cv: u32 = c as u32;
    (cv >= 0x20) && (cv != 0x22) && (cv != 0x5C)
}

/// Skips whitespace from `i` on.
pub fn multispace0(s: &[char], i: usize) -> (end: usize)
    ensures
        end == ws_end(s@, i as int),
        i <= end,
        i <= s.len() ==> end <= s.len(),
{
    let mut k: usize = i;
    while k < s.len() && is_space_char(s[k])
        invariant
            i <= k,
            i <= s.len() ==> k <= s.len(),
            ws_end(s@, i as int) == ws_end(s@, k as int),
        decreases s.len() - k,
    {
        k += 1;
    }
    k
}

/// Recognizes the character `c` with whitespace before and after it.
pub fn spacey(s: &[char], i: usize, c: char) -> (r: Option<usize>)
    ensures
        r matches Some(end) ==> spaced_end(s@, i as int, c) == Some(end as int) && i < end
            <= s.len(),
        r is None ==> spaced_end(s@, i as int, c) is None,
{
    let k = multispace0(s, i);
    if k < s.len() && s[k] == c {
        Some(multispace0(s, k + 1))
    } else {
        None
    }
}

/// Skips decimal digits from `i` on.
pub fn digit0(s: &[char], i: usize) -> (end: usize)
    ensures
        end == digits_end(s@, i as int),
        i <= end,
        i <= s.len() ==> end <= s.len(),
{
    let mut k: usize = i;
    while k < s.len() && is_digit_char(s[k])
        invariant
            i <= k,
            i <= s.len() ==> k <= s.len(),
            digits_end(s@, i as int) == digits_end(s@, k as int),
        decreases s.len() - k,
    {
        k += 1;
    }
    k
}

/// One digit from 1 to 9.
pub fn digit1to9(s: &[char], i: usize) -> (b: bool)
    ensures
        b == (digit_at(s@, i as int) && !char_at(s@, i as int, '0')),
{
    i < s.len() && is_digit_char(s[i]) && s[i] != '0'
}

/// `zero / ( digit1-9 *DIGIT )`
pub fn uint(s: &[char], i: usize) -> (r: Option<usize>)
    ensures
        r matches Some(end) ==> uint_end(s@, i as int) == Some(end as int) && i < end <= s.len(),
        r is None ==> uint_end(s@, i as int) is None,
{
    if i < s.len() && s[i] == '0' {
        Some(i + 1)
    } else if digit1to9(s, i) {
        Some(digit0(s, i + 1))
    } else {
        None
    }
}

/// `[ minus ] int`
pub fn integer_body(s: &[char], i: usize) -> (r: Option<usize>)
    ensures
        r matches Some(end) ==> integer_body_end(s@, i as int) == Some(end as int) && i < end
            <= s.len(),
        r is None ==> integer_body_end(s@, i as int) is None,
{
    if i < s.len() && s[i] == '-' {
        uint(s, i + 1)
    } else {
        uint(s, i)
    }
}

/// `decimal-point 1*DIGIT`
pub fn frac(s: &[char], i: usize) -> (r: Option<usize>)
    ensures
        r matches Some(end) ==> frac_end(s@, i as int) == Some(end as int) && i < end <= s.len(),
        r is None ==> frac_end(s@, i as int) is None,
{
    if i < s.len() && s[i] == '.' && i + 1 < s.len() && is_digit_char(s[i + 1]) {
        Some(digit0(s, i + 1))
    } else {
        None
    }
}

/// `e [ minus / plus ] 1*DIGIT`, with `e` in either case.
pub fn exp(s: &[char], i: usize) -> (r: Option<usize>)
    ensures
        r matches Some(end) ==> exp_end(s@, i as int) == Some(end as int) && i < end <= s.len(),
        r is None ==> exp_end(s@, i as int) is None,
{
    if i < s.len() && (s[i] == 'e' || s[i] == 'E') {
        let j: usize = if i + 1 < s.len() && (s[i + 1] == '+' || s[i + 1] == '-') {
            i + 2
        } else {
            i + 1
        };
        if j < s.len() && is_digit_char(s[j]) {
            Some(digit0(s, j))
        } else {
            None
        }
    } else {
        None
    }
}

/// `[ minus ] int ( frac [ exp ] / exp )`
pub fn float_body(s: &[char], i: usize) -> (r: Option<usize>)
    ensures
        r matches Some(end) ==> float_body_end(s@, i as int) == Some(end as int) && i < end
            <= s.len(),
        r is None ==> float_body_end(s@, i as int) is None,
{
    match integer_body(s, i) {
        None => None,
        Some(j) => match frac(s, j) {
            Some(k) => match exp(s, k) {
                Some(e) => Some(e),
                None => Some(k),
            },
            None => exp(s, j),
        },
    }
}

/// One or more plain string characters.
pub fn nonescaped_string(s: &[char], i: usize) -> (r: Option<usize>)
    ensures
        r matches Some(end) ==> end == plain_end(s@, i as int) && i < end <= s.len(),
        r is None ==> plain_end(s@, i as int) == i,
{
    let mut k: usize = i;
    while k < s.len() && is_nonescaped_string_char(s[k])
        invariant
            i <= k,
            i <= s.len() ==> k <= s.len(),
            plain_end(s@, i as int) == plain_end(s@, k as int),
        decreases s.len() - k,
    {
        k += 1;
    }
    if k > i {
        Some(k)
    } else {
        None
    }
}

/// One escape sequence, recognized by its shape alone.
pub fn escape_code(s: &[char], i: usize) -> (r: Option<usize>)
    ensures
        r matches Some(end) ==> escape_end(s@, i as int) == Some(end as int) && i < end
            <= s.len(),
        r is None ==> escape_end(s@, i as int) is None,
{
    if i < s.len() && s[i] == '\\' && i + 1 < s.len() {
        let c: char = s[i + 1];
        if c == '"' || c == '\\' || c == '/' || c == 'b' || c == 'f' || c == 'n' || c == 'r' || c
            == 't' {
            Some(i + 2)
        } else if c == 'u' && s.len() - i > 5 && is_hex_digit_char(s[i + 2]) && is_hex_digit_char(
            s[i + 3],
        ) && is_hex_digit_char(s[i + 4]) && is_hex_digit_char(s[i + 5]) {
            Some(i + 6)
        } else {
            None
        }
    } else {
        None
    }
}

/// If only plain characters stand between `i` and `j`, a string body that
/// starts at `i` ends where one that starts at `j` ends.
pub proof fn lemma_string_body_skips_plain(s: Seq<char>, i: int, j: int)
    requires
        0 <= i <= j,
        j == plain_end(s, i),
    ensures
        string_body_end(s, i) == string_body_end(s, j),
    decreases j - i,
{
    if 0 <= i < s.len() && plain_char(s[i]) {
        lemma_plain_end_bounds(s, i + 1);
        lemma_string_body_skips_plain(s, i + 1, j);
    }
}

/// A run of plain characters ends at or after its start, inside the text.
pub proof fn lemma_plain_end_bounds(s: Seq<char>, i: int)
    ensures
        i <= plain_end(s, i),
        i <= s.len() ==> plain_end(s, i) <= s.len(),
    decreases s.len() - i,
{
    if 0 <= i < s.len() && plain_char(s[i]) {
        lemma_plain_end_bounds(s, i + 1);
    }
}

/// Zero or more plain runs and escape sequences.
pub fn string_body(s: &[char], i: usize) -> (end: usize)
    ensures
        end == string_body_end(s@, i as int),
        i <= end,
        i <= s.len() ==> end <= s.len(),
{
    let mut k: usize = i;
    loop
        invariant
            i <= k,
            i <= s.len() ==> k <= s.len(),
            string_body_end(s@, i as int) == string_body_end(s@, k as int),
        ensures
            k == string_body_end(s@, i as int),
        decreases s.len() - k,
    {
        let step = match nonescaped_string(s, k) {
            Some(j) => {
                proof {
                    lemma_string_body_skips_plain(s@, k as int, j as int);
                }
                Some(j)
            },
            None => {
                proof {
                    lemma_plain_end_bounds(s@, k as int + 1);
                }
                escape_code(s, k)
            },
        };
        match step {
            Some(j) => {
                k = j;
            },
            None => {
                break ;
            },
        }
    }
    k
}

} // verus!
