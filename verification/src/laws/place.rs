//! Where the parser stands, and how far it goes.

use crate::cursor::{Cursor, Fault, Outcome};
use crate::error::{Error, ParseError};
use crate::grammar;
use crate::grammar::ByteClass;
use crate::num::Num;
use vstd::prelude::*;

verus! {

/// Advancing by `m` bytes and then by `n` is advancing by `m + n`.
pub proof fn law_advances_add_up(c: Cursor, m: nat, n: nat)
    ensures
        c.advanced(m).advanced(n) == c.advanced(m + n),
{
    c.lemma_compose(m, n);
}

/// Reading leaves a suffix of the input, and enables or disables nothing.
pub proof fn law_advancing_drops_bytes(c: Cursor, n: nat)
    requires
        n <= c.rest.len(),
    ensures
        c.advanced(n).rest == c.rest.skip(n as int),
        c.advanced(n).exts == c.exts,
{
    c.lemma_rest(n);
}

/// How many line feeds there are.
pub open spec fn line_feeds(s: Seq<u8>) -> nat
    decreases s.len(),
{
    if s.len() == 0 {
        0
    } else {
        line_feeds(s.drop_last()) + if s.last() == '\n' as u8 {
            1nat
        } else {
            0
        }
    }
}

/// The line grows by the number of line feeds that were read.
pub proof fn law_line_counts_line_feeds(c: Cursor, n: nat)
    requires
        n <= c.rest.len(),
    ensures
        c.advanced(n).line == c.line + line_feeds(c.rest.take(n as int)),
    decreases n,
{
    if n > 0 {
        let m = (n - 1) as nat;
        law_line_counts_line_feeds(c, m);
        c.lemma_rest(m);
        assert(c.rest.take(n as int).drop_last() =~= c.rest.take(m as int));
    }
}

/// The column is the number of bytes behind the last line feed that was read, and one;
/// without a line feed it grows by the number of bytes.
pub proof fn law_column_counts_bytes(c: Cursor, n: nat)
    requires
        n <= c.rest.len(),
    ensures
        (forall|i: int| 0 <= i < n ==> c.rest[i] != '\n' as u8) ==> c.advanced(n).col == c.col + n,
        forall|k: int|
            0 <= k < n && #[trigger] c.rest[k] == '\n' as u8 && (forall|i: int|
                k < i < n ==> c.rest[i] != '\n' as u8) ==> c.advanced(n).col == n - k,
    decreases n,
{
    if n > 0 {
        let m = (n - 1) as nat;
        law_column_counts_bytes(c, m);
        c.lemma_rest(m);
        assert(c.advanced(m).rest[0] == c.rest[m as int]);
    }
}

/// Lines and columns stay representable.
pub proof fn law_lines_and_columns_stay_countable(c: Cursor, n: nat)
    requires
        c.countable(),
        n <= c.rest.len(),
    ensures
        c.advanced(n).countable(),
    decreases n,
{
    if n > 0 {
        let m = (n - 1) as nat;
        law_lines_and_columns_stay_countable(c, m);
        c.lemma_rest(m);
    }
}

/// Whatever is read lies within the input, and so does the place of an error.
pub proof fn law_reading_stays_within_the_input<T: Num>(s: Seq<u8>)
    ensures
        grammar::blank(s) <= s.len(),
        grammar::comma(s).0 <= s.len(),
        grammar::boolean(s).within(s.len()),
        grammar::identifier(s).within(s.len()),
        grammar::character(s).within(s.len()),
        grammar::string(s).within(s.len()),
        grammar::unsigned::<T>(s).within(s.len()),
        grammar::signed::<T>(s).within(s.len()),
        grammar::float_text(s).len() <= s.len(),
        grammar::header(s).within(s.len()),
{
    grammar::lemma_blank(s);
    grammar::lemma_comma(s);
    grammar::lemma_identifier(s);
    grammar::lemma_character(s);
    grammar::lemma_string(s);
    grammar::lemma_unsigned::<T>(s);
    if s.len() > 0 {
        grammar::lemma_unsigned::<T>(s.drop_first());
    }
    grammar::lemma_run(s, ByteClass::FloatChar);
    grammar::lemma_attributes(s.skip(grammar::blank(s) as int));
}

/// A value is answered as it is. An error is answered with the line and the column of the
/// place that it blames.
pub proof fn law_answers<T>(c: Cursor, used: nat, v: T, kind: ParseError, at: nat)
    ensures
        c.answer(Outcome { used, result: Ok::<T, Fault<ParseError>>(v) }) == Ok::<T, Error>(v),
        c.answer(Outcome { used, result: Err::<T, Fault<ParseError>>(Fault { kind, at }) }) matches Err(
            Error::Parser(k, p),
        ) && k == kind && p.line == c.advanced(at).line as usize && p.col == c.advanced(
            at,
        ).col as usize,
        c.error(kind) matches Error::Parser(k, p) && k == kind && p.line == c.line as usize
            && p.col == c.col as usize,
{
}

/// One byte further on, a line feed starts the next line at its first column; any other
/// byte only moves the column.
pub proof fn law_steps(c: Cursor)
    requires
        c.rest.len() > 0,
    ensures
        c.rest[0] == 10 ==> c.step().line == c.line + 1 && c.step().col == 1,
        c.rest[0] != 10 ==> c.step().line == c.line && c.step().col == c.col + 1,
        c.step().rest == c.rest.skip(1),
        c.step().exts == c.exts,
        c.step() == c.advanced(1),
        c == c.advanced(0),
{
    reveal_with_fuel(Cursor::advanced, 2);
    assert(c.rest.skip(1) =~= c.rest.drop_first());
}

} // verus!
