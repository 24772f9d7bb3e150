//! Laws of the notation: what holds of every input, of what was written and read back,
//! and of several steps together.

pub mod alphabet;
pub mod errors;
pub mod header;
pub mod integers;
pub mod place;
pub mod texts;
pub mod words;
