//! What can go wrong while parsing, and where.

use crate::position::Position;
use vstd::prelude::*;

verus! {

/// An error of the parser.
#[derive(Clone, Debug, PartialEq)]
pub enum Error {
    /// The input does not follow the grammar; the position is where that showed.
    Parser(ParseError, Position),
}

/// The ways in which an input can fail to follow the grammar.
#[derive(Clone, Debug, PartialEq)]
pub enum ParseError {
    /// The input ended too early.
    Eof,
    ExpectedAttribute,
    ExpectedAttributeEnd,
    ExpectedBoolean,
    ExpectedChar,
    ExpectedComma,
    ExpectedFloat,
    ExpectedIdentifier,
    ExpectedInteger,
    ExpectedString,
    ExpectedStringEnd,
    /// An escape sequence is malformed; the text says how.
    InvalidEscape(&'static str),
    /// An attribute enables an extension that does not exist.
    NoSuchExtension(String),
    /// The bytes of a character or a string are not UTF-8.
    Utf8Error(Utf8Error),
}

/// How far a byte sequence is well-formed UTF-8.
#[derive(Clone, Copy, Debug, PartialEq, Eq, Structural)]
pub struct Utf8Error {
    /// The length of the longest prefix that is UTF-8.
    pub valid_up_to: usize,
}

} // verus!
