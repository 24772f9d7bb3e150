//! A pull parser for the tokens of a readable object notation: whitespace and
//! comments, identifiers, booleans, characters, strings, numbers, and the
//! `#![enable(..)]` attributes at the head of a document.
//!
//! [`parse::Bytes`] walks over the input. What each of its methods reads, and what
//! it answers, is stated over the grammar in [`grammar`]; where it stands afterwards,
//! over [`cursor::Cursor`].

pub mod cursor;
pub mod error;
pub mod extensions;
pub mod grammar;
pub mod laws;
pub mod num;
pub mod parse;
pub mod position;
pub mod text;
