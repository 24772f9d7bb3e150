//! A place in the input, with what is left to read.

use crate::error::{Error, ParseError};
use crate::extensions::Extensions;
use crate::position::Position;
use vstd::prelude::*;

verus! {

/// Where a parser stands: the enabled extensions, the bytes that are left, and the
/// line and the column of the first of them.
pub struct Cursor {
    pub exts: Extensions,
    pub rest: Seq<u8>,
    pub line: nat,
    pub col: nat,
}

/// An error of some kind, `at` bytes behind where reading began.
pub struct Fault<E> {
    pub kind: E,
    pub at: nat,
}

/// What came of reading something: how many bytes were consumed, and the value or
/// the error.
pub struct Outcome<T, E> {
    pub used: nat,
    pub result: Result<T, Fault<E>>,
}

impl<T, E> Outcome<T, E> {
    /// A value, off that many bytes.
    pub open spec fn value(used: nat, v: T) -> Outcome<T, E> {
        Outcome { used, result: Ok(v) }
    }

    /// An error behind the bytes consumed.
    pub open spec fn fault(used: nat, kind: E) -> Outcome<T, E> {
        Outcome { used, result: Err(Fault { kind, at: used }) }
    }

    /// The same, read behind `n` bytes that were consumed before.
    pub open spec fn behind(self, n: nat) -> Outcome<T, E> {
        Outcome {
            used: n + self.used,
            result: match self.result {
                Ok(v) => Ok(v),
                Err(f) => Err(Fault { kind: f.kind, at: n + f.at }),
            },
        }
    }

    /// Whether no more than `len` bytes were consumed or blamed.
    pub open spec fn within(self, len: nat) -> bool {
        &&& self.used <= len
        &&& self.result matches Err(f) ==> f.at <= self.used
    }
}

impl Cursor {
    /// Behind one more byte: a line feed ends its line.
    pub open spec fn step(self) -> Cursor {
        let line_feed = self.rest[0] == '\n' as u8;
        Cursor {
            exts: self.exts,
            rest: self.rest.drop_first(),
            line: if line_feed {
                self.line + 1
            } else {
                self.line
            },
            col: if line_feed {
                1
            } else {
                self.col + 1
            },
        }
    }

    /// Behind `n` more bytes.
    pub open spec fn advanced(self, n: nat) -> Cursor
        decreases n,
    {
        if n == 0 {
            self
        } else {
            self.advanced((n - 1) as nat).step()
        }
    }

    /// The line and the column.
    pub open spec fn position(self) -> Position {
        Position { line: self.line as usize, col: self.col as usize }
    }

    /// An error of this kind, reported here.
    pub open spec fn error(self, kind: ParseError) -> Error {
        Error::Parser(kind, self.position())
    }

    /// The answer to an attempt to read something from here.
    pub open spec fn answer<T>(self, o: Outcome<T, ParseError>) -> Result<T, Error> {
        match o.result {
            Ok(v) => Ok(v),
            Err(f) => Err(self.advanced(f.at).error(f.kind)),
        }
    }

    /// Whether lines and columns stay representable up to the end of the input.
    pub open spec fn countable(self) -> bool {
        &&& self.line + self.rest.len() <= usize::MAX
        &&& self.col + self.rest.len() <= usize::MAX
        &&& 1 <= self.col
    }

    /// What is left behind `n` bytes.
    pub proof fn lemma_rest(self, n: nat)
        requires
            n <= self.rest.len(),
        ensures
            self.advanced(n).rest == self.rest.skip(n as int),
            self.advanced(n).exts == self.exts,
        decreases n,
    {
        if n > 0 {
            self.lemma_rest((n - 1) as nat);
            assert(self.rest.skip(n - 1).drop_first() =~= self.rest.skip(n as int));
        } else {
            assert(self.rest.skip(0) =~= self.rest);
        }
    }

    /// Two advances are one.
    pub proof fn lemma_compose(self, m: nat, n: nat)
        ensures
            self.advanced(m).advanced(n) == self.advanced(m + n),
        decreases n,
    {
        if n > 0 {
            self.lemma_compose(m, (n - 1) as nat);
        }
    }

    /// Reading behind `n` bytes answers as reading from there.
    pub proof fn lemma_answer_behind<T>(self, o: Outcome<T, ParseError>, n: nat)
        ensures
            self.answer(o.behind(n)) == self.advanced(n).answer(o),
            self.advanced(o.behind(n).used) == self.advanced(n).advanced(o.used),
    {
        self.lemma_compose(n, o.used);
        if let Err(f) = o.result {
            self.lemma_compose(n, f.at);
        }
    }
}

} // verus!
