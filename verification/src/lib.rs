//! Reading JSON text in two steps: [`lex::lex`] splits a text into tokens,
//! and [`parse`] builds the value tree that the tokens write.
//!
//! - [`lex`]: tokens, and the scanner that finds them in a text.
//! - [`parse`](mod@parse): the parser, its errors, and what it makes of every
//!   run of tokens.
//! - [`value`](mod@value): value trees, objects as mappings, and the values
//!   that trees stand for.
//! - [`number`]: numbers, kept as the text that writes them.
//! - [`grammar`]: written values, and that the parser accepts exactly what
//!   writes one.
//! - [`text`]: tokens written out as text, and that the scanner finds them
//!   again.
//! - [`chars`] and [`part`]: characters, and parts of sequences.
//!
//! A number is kept as its text, so that nothing is lost of what was
//! written. An object maps each key to one value; where a text writes a key
//! more than once, the last value counts, and the order of the members is
//! not kept. The parser descends into a value by recursion, as deep as the
//! value is nested. Tokens behind the first value of a run are not read.

pub mod chars;
pub mod grammar;
pub mod lex;
pub mod number;
pub mod parse;
pub mod part;
pub mod text;
pub mod value;

pub use number::Number;
pub use parse::{parse, value, ParseError};
pub use value::{Json, Object, Value};
