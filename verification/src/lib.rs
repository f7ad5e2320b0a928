//! A JSON text parser that builds an in-memory tree, following RFC 8259.
//!
//! The grammar is stated as specification functions over sequences of
//! characters; every executable recognizer is proved to compute exactly what
//! the grammar says.
//!
//! - `ast`: the tree, the value that it stands for, and the errors.
//! - `lexical`: character classes and the recognizers of runs, number shapes
//!   and string bodies.
//! - `number`, `text`: integer, float and string literals.
//! - `grammar`: what stands at a position of a text, by ordered choice and
//!   recursion through arrays and objects.
//! - `parser`: the recursive-descent parser on a buffer of characters.
//! - `entry`: the parser on text.
//! - `document`: JSON texts as the grammar of RFC 8259 derives them.
//! - `laws`: every valid document parses; what is read lies inside the text
//!   and is well formed; whitespace and number classes.
//! - `accepted`: whatever parses is a valid document.
//! - `canonical`: a text for each value that parses back to the value.

pub mod accepted;
pub mod ast;
pub mod canonical;
pub mod document;
pub mod entry;
pub mod grammar;
pub mod laws;
pub mod lexical;
pub mod number;
pub mod parser;
pub mod text;

pub use ast::{JSONParseError, Json, Member, Node};
pub use entry::{
    json_array, json_bool, json_float, json_integer, json_null, json_object, json_string,
    json_value, parse,
};
pub use lexical::is_nonescaped_string_char;
