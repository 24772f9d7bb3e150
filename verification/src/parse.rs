//! The parser.

use crate::cursor::{Cursor, Outcome};
use crate::error::{Error, ParseError};
use crate::grammar;
use crate::grammar::{ByteClass, HeaderFault};
use crate::num;
use crate::text;
use core::ops::Neg;
use vstd::prelude::*;
use vstd::utf8::*;

pub use crate::extensions::Extensions;
pub use crate::num::Num;
pub use crate::position::Position;

verus! {

/// A parser over a byte string.
#[derive(Clone, Copy, Debug)]
pub struct Bytes<'a> {
    /// The enabled extensions.
    pub exts: Extensions,
    bytes: &'a [u8],
    column: usize,
    line: usize,
}

impl<'a> View for Bytes<'a> {
    type V = Cursor;

    /// Where the parser stands.
    closed spec fn view(&self) -> Cursor {
        Cursor {
            exts: self.exts,
            rest: self.bytes@,
            line: self.line as nat,
            col: self.column as nat,
        }
    }
}

/// A string that was read.
#[derive(Clone, Debug)]
pub enum ParsedStr<'a> {
    /// Its text was put together from pieces and escapes.
    Allocated(String),
    /// Its text stands in the input as it is.
    Slice(&'a str),
}

impl<'a> View for ParsedStr<'a> {
    type V = Seq<char>;

    /// The text.
    open spec fn view(&self) -> Seq<char> {
        match self {
            ParsedStr::Allocated(s) => s@,
            ParsedStr::Slice(s) => s@,
        }
    }
}

/// How many bytes of the class a byte string starts with.
fn run_length(bytes: &[u8], class: ByteClass) -> (n: usize)
    ensures
        n == grammar::run(bytes@, class),
{
    let mut i: usize = 0;
    assert(bytes@.skip(0) =~= bytes@);
    while i < bytes.len() && class.contains(bytes[i])
        invariant
            i <= bytes@.len(),
            i + grammar::run(bytes@.skip(i as int), class) == grammar::run(bytes@, class),
        decreases bytes@.len() - i,
    {
        assert(bytes@.skip(i as int).drop_first() =~= bytes@.skip(i + 1));
        i += 1;
    }
    i
}

impl<'a> Bytes<'a> {
    /// Lines and columns can be counted up to the end of the input.
    pub open spec fn wf(&self) -> bool {
        self@.countable()
    }

    /// A parser at the beginning of a document, behind its attributes.
    pub fn new(bytes: &'a [u8]) -> (r: Result<Bytes<'a>, Error>)
        requires
            bytes@.len() < usize::MAX,
        ensures
            ({
                let start = Cursor { exts: Extensions::none(), rest: bytes@, line: 1, col: 1 };
                let h = grammar::header(bytes@);
                match h.result {
                    Ok(e) => r matches Ok(b) && b.wf() && b@ == (Cursor {
                        exts: e,
                        ..start.advanced(h.used)
                    }),
                    Err(f) => r matches Err(Error::Parser(kind, position)) && f.kind.reported_as(
                        kind,
                    ) && position == start.advanced(f.at).position(),
                }
            }),
    {
        let mut b: Bytes<'a> = Bytes { bytes, column: 1, exts: Extensions::empty(), line: 1 };
        let ghost start = b@;
        let ghost whole = grammar::header(bytes@);
        let ghost mut n: nat = grammar::blank(bytes@);
        proof {
            grammar::lemma_blank(bytes@);
            start.lemma_rest(n);
            grammar::lemma_joined_none(grammar::attributes(bytes@.skip(n as int)), n);
        }
        b.skip_ws();
        loop
            invariant
                start == (Cursor { exts: Extensions::none(), rest: bytes@, line: 1, col: 1 }),
                whole == grammar::header(bytes@),
                b.wf(),
                n <= start.rest.len(),
                b@ == with_exts(start.advanced(n), b@.exts),
                b@.rest == start.rest.skip(n as int),
                whole == grammar::joined(b@.exts, n, grammar::attributes(b@.rest)),
            decreases b@.rest.len(),
        {
            let ghost here = b@;
            let ghost first = grammar::attribute(here.rest);
            let ghost others = grammar::attributes(here.rest.skip(first.used as int));
            proof {
                grammar::lemma_attribute(here.rest);
                here.lemma_rest(first.used);
                start.lemma_compose(n, first.used);
                start.lemma_rest(n + first.used);
                lemma_advanced_exts(start.advanced(n), here.exts, first.used);
                match first.result {
                    Ok(e) => {
                        grammar::lemma_joined(here.exts, n, e, first.used, others);
                    },
                    Err(f) => {
                        start.lemma_compose(n, f.at);
                        lemma_advanced_exts(start.advanced(n), here.exts, f.at);
                    },
                }
            }
            let attribute: Extensions = match b.extensions() {
                Ok(e) => e,
                Err(e) => {
                    return Err(e);
                },
            };
            if attribute.is_empty() {
                proof {
                    let x = here.exts.bits;
                    assert(x | 0usize == x) by (bit_vector);
                }
                return Ok(b);
            }
            b.exts.insert(attribute);
            proof {
                n = n + first.used;
            }
            b.skip_ws();
        }
    }

    /// The enabled extensions.
    pub fn exts(&self) -> (r: Extensions)
        ensures
            r == self@.exts,
    {
        self.exts
    }

    /// Consumes that many bytes, or all that are left where they are fewer.
    pub fn advance(&mut self, bytes: usize) -> (r: Result<(), Error>)
        requires
            old(self).wf(),
        ensures
            final(self).wf(),
            bytes <= old(self)@.rest.len() ==> final(self)@ == old(self)@.advanced(bytes as nat)
                && r == Ok::<(), Error>(()),
            bytes > old(self)@.rest.len() ==> final(self)@ == old(self)@.advanced(
                old(self)@.rest.len(),
            ) && r == Err::<(), Error>(final(self)@.error(ParseError::Eof)),
    {
        let ghost start = self@;
        let mut i: usize = 0;
        while i < bytes
            invariant
                i <= bytes,
                i <= start.rest.len(),
                start == old(self)@,
                self.wf(),
                self@ == start.advanced(i as nat),
            decreases bytes - i,
        {
            proof {
                start.lemma_rest(i as nat);
            }
            match self.advance_single() {
                Ok(_) => {},
                Err(e) => {
                    return Err(e);
                },
            }
            i += 1;
        }
        Ok(())
    }

    /// Consumes a byte.
    pub fn advance_single(&mut self) -> (r: Result<(), Error>)
        requires
            old(self).wf(),
        ensures
            final(self).wf(),
            old(self)@.rest.len() > 0 ==> final(self)@ == old(self)@.step() && r == Ok::<
                (),
                Error,
            >(()),
            old(self)@.rest.len() == 0 ==> final(self)@ == old(self)@ && r == Err::<(), Error>(
                old(self)@.error(ParseError::Eof),
            ),
    {
        let b: u8 = match self.peek_or_eof() {
            Ok(b) => b,
            Err(e) => {
                return Err(e);
            },
        };
        if b == '\n' as u8 {
            self.line += 1;
            self.column = 1;
        } else {
            self.column += 1;
        }
        assert(self.bytes@.subrange(1, self.bytes@.len() as int) =~= self.bytes@.drop_first());
        self.bytes = &self.bytes[1..self.bytes.len()];
        Ok(())
    }

    /// Reads a boolean.
    pub fn bool(&mut self) -> (r: Result<bool, Error>)
        requires
            old(self).wf(),
        ensures
            final(self).wf(),
            final(self)@ == old(self)@.advanced(grammar::boolean(old(self)@.rest).used),
            r == old(self)@.answer(grammar::boolean(old(self)@.rest)),
    {
        proof {
            reveal_strlit("true");
            reveal_strlit("false");
            text::lemma_ascii_bytes("true", grammar::true_word());
            text::lemma_ascii_bytes("false", grammar::false_word());
        }
        if self.consume("true") {
            Ok(true)
        } else if self.consume("false") {
            Ok(false)
        } else {
            self.err(ParseError::ExpectedBoolean)
        }
    }

    /// The bytes that are left.
    pub fn bytes(&self) -> (r: &[u8])
        ensures
            r@ == self@.rest,
    {
        self.bytes
    }

    /// Reads a character in single quotes.
    pub fn char(&mut self) -> (r: Result<char, Error>)
        requires
            old(self).wf(),
        ensures
            final(self).wf(),
            final(self)@ == old(self)@.advanced(grammar::character(old(self)@.rest).used),
            r == old(self)@.answer(grammar::character(old(self)@.rest)),
    {
        let ghost start = self@;
        proof {
            reveal_strlit("'");
            text::lemma_ascii_bytes("'", seq!['\'' as u8]);
            lemma_single(start.rest, '\'' as u8);
            reveal_with_fuel(Cursor::advanced, 3);
        }
        if !self.consume("'") {
            return self.err(ParseError::ExpectedChar);
        }
        proof {
            start.lemma_rest(1);
        }
        let first: u8 = match self.peek_or_eof() {
            Ok(b) => b,
            Err(e) => {
                return Err(e);
            },
        };
        let ghost mut n: nat = 0;
        let c: char = if first == '\\' as u8 {
            let _ = self.advance(1);
            let ghost e = grammar::escape(start.rest.skip(2));
            proof {
                start.lemma_compose(1, 1);
                start.lemma_rest(2);
                start.lemma_answer_behind(e, 2);
                grammar::lemma_escape(start.rest.skip(2));
                n = 2 + e.used;
            }
            match self.parse_escape() {
                Ok(c) => c,
                Err(e) => {
                    return Err(e);
                },
            }
        } else {
            // Look for the end of the character and take what stands before it for UTF-8.
            let len: usize = self.bytes.len();
            let max: usize = if len < 5 {
                len
            } else {
                5
            };
            let window: &[u8] = &self.bytes[0..max];
            proof {
                assert(len < 5 ==> window@ =~= self@.rest);
                grammar::lemma_run(window@, ByteClass::CharBody);
            }
            let pos: usize = run_length(window, ByteClass::CharBody);
            if pos == max {
                return self.err(ParseError::ExpectedChar);
            }
            let body: &[u8] = &self.bytes[0..pos];
            assert(body@ =~= start.rest.skip(1).take(pos as int));
            let s: &str = match text::str_from_utf8(body) {
                Ok(s) => s,
                Err(e) => {
                    return self.err(ParseError::Utf8Error(e));
                },
            };
            if s.unicode_len() != 1 {
                return self.err(ParseError::ExpectedChar);
            }
            let c: char = s.get_char(0);
            let _ = self.advance(pos);
            proof {
                start.lemma_compose(1, pos as nat);
                n = 1 + pos as nat;
            }
            c
        };
        proof {
            start.lemma_rest(n);
            lemma_single(self@.rest, '\'' as u8);
            start.lemma_compose(n, 1);
        }
        if !self.consume("'") {
            return self.err(ParseError::ExpectedChar);
        }
        Ok(c)
    }

    /// Consumes a comma with the blanks around it, or the blanks alone.
    pub fn comma(&mut self) -> (r: bool)
        requires
            old(self).wf(),
        ensures
            final(self).wf(),
            r == grammar::comma(old(self)@.rest).1,
            final(self)@ == old(self)@.advanced(grammar::comma(old(self)@.rest).0),
    {
        let ghost start = self@;
        let ghost n = grammar::blank(start.rest);
        proof {
            grammar::lemma_blank(start.rest);
            start.lemma_rest(n);
            reveal_strlit(",");
            text::lemma_ascii_bytes(",", seq![',' as u8]);
        }
        self.skip_ws();
        let ghost here = self@;
        proof {
            lemma_single(here.rest, ',' as u8);
        }
        if self.consume(",") {
            proof {
                here.lemma_rest(1);
                assert(self@.rest =~= start.rest.skip(n as int + 1));
                start.lemma_compose(n, 1);
                start.lemma_compose(n + 1, grammar::blank(self@.rest));
            }
            self.skip_ws();
            true
        } else {
            false
        }
    }

    /// Whether the input goes on with these words. Only returns true if the char after
    /// `ident` cannot belong to an identifier.
    pub fn check_ident(&mut self, ident: &str) -> (r: bool)
        ensures
            final(self)@ == old(self)@,
            r == grammar::ident_at(old(self)@.rest, text::bytes_of(ident)),
    {
        self.test_for(ident) && !self.check_ident_char(ident.as_bytes().len())
    }

    /// Whether the byte at an index is there and can belong to an identifier.
    fn check_ident_char(&self, index: usize) -> (r: bool)
        ensures
            r == grammar::has_at(self@.rest, index as int, ByteClass::IdentChar),
    {
        index < self.bytes.len() && ByteClass::IdentChar.contains(self.bytes[index])
    }

    /// Consumes an identifier. Only returns true if the char after `ident` cannot belong
    /// to an identifier.
    pub fn consume_ident(&mut self, ident: &str) -> (r: bool)
        requires
            old(self).wf(),
        ensures
            final(self).wf(),
            r == grammar::ident_at(old(self)@.rest, text::bytes_of(ident)),
            final(self)@ == old(self)@.advanced(
                if r {
                    text::bytes_of(ident).len()
                } else {
                    0
                },
            ),
    {
        if self.check_ident(ident) {
            let _ = self.advance(ident.as_bytes().len());
            true
        } else {
            false
        }
    }

    /// Consumes a token, if it is there.
    pub fn consume(&mut self, s: &str) -> (r: bool)
        requires
            old(self).wf(),
        ensures
            final(self).wf(),
            r == text::bytes_of(s).is_prefix_of(old(self)@.rest),
            final(self)@ == old(self)@.advanced(
                if r {
                    text::bytes_of(s).len()
                } else {
                    0
                },
            ),
    {
        if self.test_for(s) {
            let _ = self.advance(s.as_bytes().len());
            true
        } else {
            false
        }
    }

    /// Consumes tokens with the blanks behind each, up to the first that is missing.
    pub fn consume_all(&mut self, all: &[&str]) -> (r: bool)
        requires
            old(self).wf(),
        ensures
            final(self).wf(),
            r == grammar::tokens(old(self)@.rest, token_bytes(all@)).1,
            final(self)@ == old(self)@.advanced(
                grammar::tokens(old(self)@.rest, token_bytes(all@)).0,
            ),
    {
        let ghost start = self@;
        let ghost tokens = token_bytes(all@);
        let ghost mut n: nat = 0;
        let mut i: usize = 0;
        assert(tokens.skip(0) =~= tokens);
        assert(start.rest.skip(0) =~= start.rest);
        while i < all.len()
            invariant
                start == old(self)@,
                tokens == token_bytes(all@),
                self.wf(),
                i <= all@.len(),
                n <= start.rest.len(),
                self@ == start.advanced(n),
                self@.rest == start.rest.skip(n as int),
                grammar::tokens(start.rest, tokens) == (
                    n + grammar::tokens(self@.rest, tokens.skip(i as int)).0,
                    grammar::tokens(self@.rest, tokens.skip(i as int)).1,
                ),
            decreases all@.len() - i,
        {
            let ghost here = self@;
            let ghost token = text::bytes_of(all@[i as int]);
            assert(tokens.skip(i as int)[0] == token);
            assert(tokens.skip(i as int).drop_first() =~= tokens.skip(i + 1));
            if self.consume(all[i]) {
                let ghost mid = self@;
                proof {
                    here.lemma_rest(token.len());
                    grammar::lemma_blank(mid.rest);
                }
                self.skip_ws();
                proof {
                    let k = token.len() + grammar::blank(mid.rest);
                    here.lemma_compose(token.len(), grammar::blank(mid.rest));
                    start.lemma_compose(n, k);
                    here.lemma_rest(k);
                    n = n + k;
                    start.lemma_rest(n);
                }
            } else {
                return false;
            }
            i += 1;
        }
        true
    }

    /// Consumes a byte and returns it.
    pub fn eat_byte(&mut self) -> (r: Result<u8, Error>)
        requires
            old(self).wf(),
        ensures
            final(self).wf(),
            old(self)@.rest.len() > 0 ==> final(self)@ == old(self)@.step() && r == Ok::<
                u8,
                Error,
            >(old(self)@.rest[0]),
            old(self)@.rest.len() == 0 ==> final(self)@ == old(self)@ && r == Err::<u8, Error>(
                old(self)@.error(ParseError::Eof),
            ),
    {
        match self.peek_or_eof() {
            Ok(b) => {
                let _ = self.advance_single();
                Ok(b)
            },
            Err(e) => Err(e),
        }
    }

    /// Fails, at the current position.
    pub fn err<T>(&self, kind: ParseError) -> (r: Result<T, Error>)
        ensures
            r == Err::<T, Error>(self@.error(kind)),
    {
        Err(self.error(kind))
    }

    /// An error at the current position.
    pub fn error(&self, kind: ParseError) -> (r: Error)
        ensures
            r == self@.error(kind),
    {
        Error::Parser(kind, Position { line: self.line, col: self.column })
    }

    /// Consumes a byte, which has to be this one.
    pub fn expect_byte(&mut self, byte: u8, error: ParseError) -> (r: Result<(), Error>)
        requires
            old(self).wf(),
        ensures
            final(self).wf(),
            old(self)@.rest.len() > 0 ==> final(self)@ == old(self)@.step() && r == if old(
                self,
            )@.rest[0] == byte {
                Ok::<(), Error>(())
            } else {
                Err::<(), Error>(old(self)@.step().error(error))
            },
            old(self)@.rest.len() == 0 ==> final(self)@ == old(self)@ && r == Err::<(), Error>(
                old(self)@.error(ParseError::Eof),
            ),
    {
        match self.eat_byte() {
            Ok(b) => if b == byte {
                Ok(())
            } else {
                self.err(error)
            },
            Err(e) => Err(e),
        }
    }

    /// Reads an attribute, if one starts here. Returns the extensions bit mask.
    fn extensions(&mut self) -> (r: Result<Extensions, Error>)
        requires
            old(self).wf(),
        ensures
            final(self).wf(),
            final(self)@ == old(self)@.advanced(grammar::attribute(old(self)@.rest).used),
            header_answer(old(self)@, grammar::attribute(old(self)@.rest), r),
    {
        proof {
            reveal(grammar::attribute);
        }
        let ghost start = self@;
        let at_attribute: bool = match self.peek() {
            Some(b) => b == '#' as u8,
            None => false,
        };
        if !at_attribute {
            return Ok(Extensions::empty());
        }
        let opening: [&str; 5] = ["#", "!", "[", "enable", "("];
        let closing: [&str; 2] = [")", "]"];
        proof {
            reveal_strlit("#");
            reveal_strlit("!");
            reveal_strlit("[");
            reveal_strlit("enable");
            reveal_strlit("(");
            reveal_strlit(")");
            reveal_strlit("]");
            text::lemma_ascii_bytes("#", seq!['#' as u8]);
            text::lemma_ascii_bytes("!", seq!['!' as u8]);
            text::lemma_ascii_bytes("[", seq!['[' as u8]);
            text::lemma_ascii_bytes("enable", grammar::enable_word());
            text::lemma_ascii_bytes("(", seq!['(' as u8]);
            text::lemma_ascii_bytes(")", seq![')' as u8]);
            text::lemma_ascii_bytes("]", seq![']' as u8]);
            assert(token_bytes(opening@) =~= grammar::attribute_start());
            assert(token_bytes(closing@) =~= grammar::attribute_end());
        }
        let ghost n = grammar::tokens(start.rest, grammar::attribute_start()).0;
        proof {
            grammar::lemma_tokens(start.rest, grammar::attribute_start());
            start.lemma_rest(n);
        }
        if !self.consume_all(opening.as_slice()) {
            return self.err(ParseError::ExpectedAttribute);
        }
        self.skip_ws();
        let ghost names = grammar::extension_names(self@.rest);
        proof {
            grammar::lemma_extension_names(self@.rest);
            start.lemma_compose(n, names.used);
            self@.lemma_rest(names.used);
            if let Err(f) = names.result {
                start.lemma_compose(n, f.at);
            }
        }
        let ghost here = self@;
        let extensions: Extensions = match self.extension_names() {
            Ok(e) => e,
            Err(e) => {
                return Err(e);
            },
        };
        proof {
            assert(here.rest.skip(names.used as int) =~= start.rest.skip((n + names.used) as int));
        }
        self.skip_ws();
        let ghost m = n + names.used;
        let ghost k = grammar::tokens(self@.rest, grammar::attribute_end()).0;
        proof {
            start.lemma_compose(m, k);
        }
        if self.consume_all(closing.as_slice()) {
            Ok(extensions)
        } else {
            self.err(ParseError::ExpectedAttributeEnd)
        }
    }

    /// Reads the names in an attribute.
    fn extension_names(&mut self) -> (r: Result<Extensions, Error>)
        requires
            old(self).wf(),
        ensures
            final(self).wf(),
            final(self)@ == old(self)@.advanced(grammar::extension_names(old(self)@.rest).used),
            header_answer(old(self)@, grammar::extension_names(old(self)@.rest), r),
    {
        let ghost start = self@;
        let ghost whole = grammar::extension_names(start.rest);
        let ghost mut n: nat = 0;
        let mut extensions: Extensions = Extensions::empty();
        proof {
            start.lemma_rest(0);
            grammar::lemma_joined_none(whole, 0);
        }
        loop
            invariant
                start == old(self)@,
                whole == grammar::extension_names(start.rest),
                self.wf(),
                n <= start.rest.len(),
                self@ == start.advanced(n),
                self@.rest == start.rest.skip(n as int),
                whole == grammar::joined(extensions, n, grammar::extension_names(self@.rest)),
            decreases self@.rest.len(),
        {
            let ghost here = self@;
            let ghost item = grammar::extension_item(here.rest);
            let ghost others = grammar::extension_names(here.rest.skip(item.used as int));
            proof {
                grammar::lemma_extension_item(here.rest);
                here.lemma_rest(item.used);
                start.lemma_compose(n, item.used);
                start.lemma_rest(n + item.used);
                if let Ok((e, _)) = item.result {
                    grammar::lemma_joined(extensions, n, e, item.used, others);
                }
                if let Err(f) = item.result {
                    start.lemma_compose(n, f.at);
                }
            }
            let (extension, more): (Extensions, bool) = match self.extension_item() {
                Ok(x) => x,
                Err(e) => {
                    return Err(e);
                },
            };
            extensions.insert(extension);
            proof {
                n = n + item.used;
            }
            if !more {
                return Ok(extensions);
            }
        }
    }

    /// Reads the name of an extension with the comma behind it: the extension, and
    /// whether another name follows.
    fn extension_item(&mut self) -> (r: Result<(Extensions, bool), Error>)
        requires
            old(self).wf(),
        ensures
            final(self).wf(),
            final(self)@ == old(self)@.advanced(grammar::extension_item(old(self)@.rest).used),
            header_answer(old(self)@, grammar::extension_item(old(self)@.rest), r),
    {
        proof {
            reveal(grammar::extension_item);
        }
        let ghost start = self@;
        let ghost ident_len = grammar::identifier(start.rest).used;
        proof {
            grammar::lemma_identifier(start.rest);
            grammar::lemma_run(start.rest, ByteClass::IdentChar);
            start.lemma_rest(ident_len);
        }
        let ident: &'a [u8] = match self.identifier() {
            Ok(ident) => ident,
            Err(e) => {
                return Err(e);
            },
        };
        let extension: Extensions = match Extensions::from_ident(ident) {
            Some(e) => e,
            None => {
                let name: String = ident_text(ident);
                return self.err(ParseError::NoSuchExtension(name));
            },
        };
        let ghost mid = self@;
        let ghost comma_len = grammar::comma(mid.rest).0;
        proof {
            grammar::lemma_comma(mid.rest);
            mid.lemma_rest(comma_len);
            start.lemma_compose(ident_len, comma_len);
            assert(mid.rest.skip(comma_len as int) =~= start.rest.skip(
                (ident_len + comma_len) as int,
            ));
        }
        let comma: bool = self.comma();
        // A comma may trail: the list goes on only if an item follows.
        let more: bool = self.check_ident_char(0);
        if more && !comma {
            return self.err(ParseError::ExpectedComma);
        }
        Ok((extension, more))
    }

    /// Reads a floating-point number, which `parse` makes of the bytes that can belong to
    /// one.
    pub fn float<T, E, F: FnOnce(&str) -> Result<T, E>>(&mut self, parse: F) -> (r: Result<T, Error>)
        requires
            old(self).wf(),
            forall|s: &str| #[trigger]
                text::bytes_of(s) == grammar::float_text(old(self)@.rest) ==> call_requires(
                    parse,
                    (s,),
                ),
        ensures
            final(self).wf(),
            final(self)@ == old(self)@.advanced(grammar::float_text(old(self)@.rest).len()),
            exists|s: &str, parsed: Result<T, E>|
                text::bytes_of(s) == grammar::float_text(old(self)@.rest) && #[trigger]
                    call_ensures(parse, (s,), parsed) && r == match parsed {
                    Ok(v) => Ok::<T, Error>(v),
                    Err(_) => Err::<T, Error>(old(self)@.error(ParseError::ExpectedFloat)),
                },
    {
        proof {
            grammar::lemma_run(self@.rest, ByteClass::FloatChar);
        }
        let n: usize = run_length(self.bytes, ByteClass::FloatChar);
        let number: &[u8] = &self.bytes[0..n];
        proof {
            assert(number@ =~= grammar::float_text(self@.rest));
            text::lemma_ascii_is_utf8(number@);
            decode_utf8_encode_utf8(number@);
        }
        let s: &str = match text::str_from_utf8(number) {
            Ok(s) => s,
            // Never taken: all of these bytes are ASCII.
            Err(_) => "",
        };
        assert(text::bytes_of(s) == grammar::float_text(self@.rest));
        let parsed: Result<T, E> = parse(s);
        assert(call_ensures(parse, (s,), parsed));
        let res: Result<T, Error> = match parsed {
            Ok(v) => Ok(v),
            Err(_) => self.err(ParseError::ExpectedFloat),
        };
        let _ = self.advance(n);
        res
    }

    /// Reads an identifier.
    pub fn identifier(&mut self) -> (r: Result<&'a [u8], Error>)
        requires
            old(self).wf(),
        ensures
            final(self).wf(),
            final(self)@ == old(self)@.advanced(grammar::identifier(old(self)@.rest).used),
            match old(self)@.answer(grammar::identifier(old(self)@.rest)) {
                Ok(ident) => r matches Ok(v) && v@ == ident,
                Err(e) => r == Err::<&'a [u8], Error>(e),
            },
    {
        proof {
            grammar::lemma_run(self@.rest, ByteClass::IdentChar);
        }
        let first: u8 = match self.peek_or_eof() {
            Ok(b) => b,
            Err(e) => {
                return Err(e);
            },
        };
        if ByteClass::IdentFirst.contains(first) {
            let n: usize = run_length(self.bytes, ByteClass::IdentChar);
            let ident: &'a [u8] = &self.bytes[0..n];
            let _ = self.advance(n);
            Ok(ident)
        } else {
            self.err(ParseError::ExpectedIdentifier)
        }
    }

    /// How many of the next bytes are among the allowed ones.
    pub fn next_bytes_contained_in(&self, allowed: &[u8]) -> (n: usize)
        ensures
            n <= self@.rest.len(),
            forall|i: int| 0 <= i < n ==> allowed@.contains(#[trigger] self@.rest[i]),
            n < self@.rest.len() ==> !allowed@.contains(self@.rest[n as int]),
    {
        let mut n: usize = 0;
        while n < self.bytes.len() && is_among(self.bytes[n], allowed)
            invariant
                n <= self.bytes@.len(),
                forall|i: int| 0 <= i < n ==> allowed@.contains(#[trigger] self.bytes@[i]),
            decreases self.bytes@.len() - n,
        {
            n += 1;
        }
        n
    }

    /// Skips blanks and comments.
    pub fn skip_ws(&mut self)
        requires
            old(self).wf(),
        ensures
            final(self).wf(),
            final(self)@ == old(self)@.advanced(grammar::blank(old(self)@.rest)),
    {
        let ghost start = self@;
        let ghost mut n: nat = 0;
        loop
            invariant
                self.wf(),
                n <= start.rest.len(),
                self@ == start.advanced(n),
                self@.rest == start.rest.skip(n as int),
                n + grammar::blank(self@.rest) == grammar::blank(start.rest),
            ensures
                self.wf(),
                self@ == start.advanced(grammar::blank(start.rest)),
            decreases self@.rest.len(),
        {
            let ghost here = self@;
            let is_space: bool = match self.peek() {
                Some(b) => ByteClass::WhiteSpace.contains(b),
                None => false,
            };
            if is_space {
                let _ = self.advance_single();
                proof {
                    n = n + 1;
                    start.lemma_rest(n);
                }
            } else if self.skip_comment() {
                proof {
                    let k = grammar::comment(here.rest);
                    grammar::lemma_blank(here.rest);
                    here.lemma_rest(k);
                    start.lemma_compose(n, k);
                    n = n + k;
                    start.lemma_rest(n);
                }
            } else {
                break;
            }
        }
    }

    /// Skips a comment, without the line feed that ends it.
    fn skip_comment(&mut self) -> (r: bool)
        requires
            old(self).wf(),
        ensures
            final(self).wf(),
            r == grammar::slashes().is_prefix_of(old(self)@.rest),
            final(self)@ == old(self)@.advanced(grammar::comment(old(self)@.rest)),
    {
        let ghost start = self@;
        proof {
            reveal_strlit("//");
            text::lemma_ascii_bytes("//", grammar::slashes());
        }
        if self.consume("//") {
            proof {
                start.lemma_rest(2);
                grammar::lemma_run(self@.rest, ByteClass::Line);
            }
            let n: usize = run_length(self.bytes, ByteClass::Line);
            let _ = self.advance(n);
            proof {
                start.lemma_compose(2, n as nat);
            }
            true
        } else {
            false
        }
    }

    /// The next byte.
    pub fn peek(&self) -> (r: Option<u8>)
        ensures
            r == if self@.rest.len() > 0 {
                Some(self@.rest[0])
            } else {
                None
            },
    {
        if self.bytes.len() > 0 {
            Some(self.bytes[0])
        } else {
            None
        }
    }

    /// The next byte, which has to be there.
    pub fn peek_or_eof(&self) -> (r: Result<u8, Error>)
        ensures
            r == if self@.rest.len() > 0 {
                Ok::<u8, Error>(self@.rest[0])
            } else {
                Err::<u8, Error>(self@.error(ParseError::Eof))
            },
    {
        match self.peek() {
            Some(b) => Ok(b),
            None => self.err(ParseError::Eof),
        }
    }

    /// Reads an integer with an optional sign.
    pub fn signed_integer<T: Neg<Output = T> + Num>(&mut self) -> (r: Result<T, Error>)
        requires
            old(self).wf(),
            num::negatable::<T>(),
        ensures
            final(self).wf(),
            final(self)@ == old(self)@.advanced(grammar::signed::<T>(old(self)@.rest).used),
            match old(self)@.answer(grammar::signed::<T>(old(self)@.rest)) {
                Ok((negative, v)) => r matches Ok(x) && if negative {
                    call_ensures(<T as Neg>::neg, (v,), x)
                } else {
                    x == v
                },
                Err(e) => r == Err::<T, Error>(e),
            },
    {
        let ghost start = self@;
        proof {
            reveal_with_fuel(Cursor::advanced, 2);
        }
        let first: u8 = match self.peek_or_eof() {
            Ok(b) => b,
            Err(e) => {
                return Err(e);
            },
        };
        proof {
            let t = start.rest.drop_first();
            start.lemma_answer_behind(grammar::unsigned::<T>(t), 1);
        }
        if first == '+' as u8 {
            let _ = self.advance_single();
            self.unsigned_integer()
        } else if first == '-' as u8 {
            let _ = self.advance_single();
            match self.unsigned_integer::<T>() {
                Ok(v) => {
                    proof {
                        let t = start.rest.drop_first();
                        let p: int = if grammar::radix(t) == 10 {
                            0
                        } else {
                            2
                        };
                        let d = grammar::run(t.skip(p), ByteClass::Digit) as int;
                        grammar::lemma_run(t.skip(p), ByteClass::Digit);
                        let src = t.subrange(p, p + d);
                        assert(src[0] == t.skip(p)[0]);
                        assert(T::parsed(src, grammar::radix(t)) == Some(v));
                    }
                    Ok(v.neg())
                },
                Err(e) => Err(e),
            }
        } else {
            self.unsigned_integer()
        }
    }

    /// Reads an integer without a sign.
    pub fn unsigned_integer<T: Num>(&mut self) -> (r: Result<T, Error>)
        requires
            old(self).wf(),
        ensures
            final(self).wf(),
            final(self)@ == old(self)@.advanced(grammar::unsigned::<T>(old(self)@.rest).used),
            r == old(self)@.answer(grammar::unsigned::<T>(old(self)@.rest)),
    {
        let ghost start = self@;
        let base: u32 = if self.bytes.len() >= 2 && self.bytes[0] == '0' as u8 {
            let mark: u8 = self.bytes[1];
            if mark == 'x' as u8 {
                16
            } else if mark == 'b' as u8 {
                2
            } else if mark == 'o' as u8 {
                8
            } else {
                10
            }
        } else {
            10
        };
        let ghost p: nat = if base == 10 {
            0
        } else {
            2
        };
        if base != 10 {
            // If we have `0x45A` for example, cut it to `45A`.
            let _ = self.advance(2);
        }
        proof {
            start.lemma_rest(p);
            grammar::lemma_run(self@.rest, ByteClass::Digit);
        }
        let n: usize = run_length(self.bytes, ByteClass::Digit);
        if n == 0 {
            return self.err(ParseError::ExpectedInteger);
        }
        let digits: &[u8] = &self.bytes[0..n];
        proof {
            assert(digits@ =~= start.rest.subrange(p as int, (p + n) as int));
            text::lemma_ascii_is_utf8(digits@);
            decode_utf8_encode_utf8(digits@);
            start.lemma_compose(p, n as nat);
        }
        let res: Result<T, Error> = match text::str_from_utf8(digits) {
            Ok(s) => match T::from_str(s, base) {
                Ok(v) => Ok(v),
                Err(_) => self.err(ParseError::ExpectedInteger),
            },
            // Never taken: all of these bytes are ASCII.
            Err(_) => self.err(ParseError::ExpectedInteger),
        };
        let _ = self.advance(n);
        res
    }

    /// Reads a string in double quotes.
    pub fn string(&mut self) -> (r: Result<ParsedStr<'a>, Error>)
        requires
            old(self).wf(),
        ensures
            final(self).wf(),
            final(self)@ == old(self)@.advanced(grammar::string(old(self)@.rest).used),
            match old(self)@.answer(grammar::string(old(self)@.rest)) {
                Ok(v) => r matches Ok(s) && s@ == v.text && (s is Allocated <==> v.escaped),
                Err(e) => r == Err::<ParsedStr<'a>, Error>(e),
            },
    {
        let ghost start = self@;
        proof {
            reveal_strlit("\"");
            text::lemma_ascii_bytes("\"", seq!['"' as u8]);
            lemma_single(start.rest, '"' as u8);
            reveal_with_fuel(Cursor::advanced, 2);
        }
        if !self.consume("\"") {
            return self.err(ParseError::ExpectedString);
        }
        let ghost t = self@.rest;
        proof {
            grammar::lemma_run(t, ByteClass::StringBody);
        }
        let i: usize = run_length(self.bytes, ByteClass::StringBody);
        if i == self.bytes.len() {
            return self.err(ParseError::ExpectedStringEnd);
        }
        proof {
            start.lemma_compose(1, (i + 1) as nat);
            start.lemma_rest((i + 2) as nat);
            assert(t.skip(i + 1) =~= start.rest.skip(i + 2));
        }
        let body: &'a [u8] = &self.bytes[0..i];
        if self.bytes[i] == '"' as u8 {
            let s: &'a str = match text::str_from_utf8(body) {
                Ok(s) => s,
                Err(e) => {
                    return self.err(ParseError::Utf8Error(e));
                },
            };
            // The bytes of the string, and the `"` behind them.
            let _ = self.advance(i + 1);
            Ok(ParsedStr::Slice(s))
        } else {
            let mut s: Vec<u8> = Vec::new();
            append(&mut s, body);
            assert(s@ =~= t.take(i as int));
            let _ = self.advance(i + 1);
            proof {
                start.lemma_answer_behind(
                    grammar::string_rest(self@.rest, s@),
                    (i + 2) as nat,
                );
            }
            match self.string_rest(s) {
                Ok(text) => Ok(ParsedStr::Allocated(text)),
                Err(e) => Err(e),
            }
        }
    }

    /// Reads the rest of a string from behind a `\` on, after a beginning that stands for
    /// the bytes of `beginning`.
    fn string_rest(&mut self, beginning: Vec<u8>) -> (r: Result<String, Error>)
        requires
            old(self).wf(),
        ensures
            final(self).wf(),
            final(self)@ == old(self)@.advanced(
                grammar::string_rest(old(self)@.rest, beginning@).used,
            ),
            match old(self)@.answer(grammar::string_rest(old(self)@.rest, beginning@)) {
                Ok(v) => r matches Ok(text) && text@ == v.text && v.escaped,
                Err(e) => r == Err::<String, Error>(e),
            },
    {
        let ghost start = self@;
        let ghost whole = grammar::string_rest(start.rest, beginning@);
        let ghost mut n: nat = 0;
        let mut s: Vec<u8> = beginning;
        proof {
            start.lemma_rest(0);
        }
        loop
            invariant
                start == old(self)@,
                whole == grammar::string_rest(start.rest, beginning@),
                self.wf(),
                n <= start.rest.len(),
                self@ == start.advanced(n),
                self@.rest == start.rest.skip(n as int),
                whole == grammar::string_rest(self@.rest, s@).behind(n),
            decreases self@.rest.len(),
        {
            let ghost here = self@;
            let ghost piece = grammar::string_piece(here.rest);
            proof {
                start.lemma_answer_behind(grammar::string_rest(here.rest, s@), n);
                grammar::lemma_string_piece(here.rest);
                here.lemma_rest(piece.used);
                start.lemma_compose(n, piece.used);
                start.lemma_rest(n + piece.used);
            }
            let more: bool = match self.string_piece(&mut s) {
                Ok(more) => more,
                Err(e) => {
                    return Err(e);
                },
            };
            if !more {
                return match text::string_from_utf8(s) {
                    Ok(text) => Ok(text),
                    Err(e) => self.err(ParseError::Utf8Error(e)),
                };
            }
            proof {
                n = n + piece.used;
            }
        }
    }

    /// Reads a piece of a string, from behind a `\` on, and appends the bytes that it
    /// stands for. Returns whether another piece follows.
    fn string_piece(&mut self, out: &mut Vec<u8>) -> (r: Result<bool, Error>)
        requires
            old(self).wf(),
        ensures
            final(self).wf(),
            final(self)@ == old(self)@.advanced(grammar::string_piece(old(self)@.rest).used),
            match old(self)@.answer(grammar::string_piece(old(self)@.rest)) {
                Ok((bytes, more)) => r == Ok::<bool, Error>(more) && final(out)@ == old(out)@
                    + bytes,
                Err(e) => r == Err::<bool, Error>(e),
            },
    {
        let ghost start = self@;
        let ghost e = grammar::escape(start.rest);
        proof {
            grammar::lemma_escape(start.rest);
            start.lemma_rest(e.used);
        }
        let character: char = match self.parse_escape() {
            Ok(c) => c,
            Err(e) => {
                return Err(e);
            },
        };
        text::push_char(out, character);
        proof {
            grammar::lemma_run(self@.rest, ByteClass::StringBody);
        }
        let i: usize = run_length(self.bytes, ByteClass::StringBody);
        if i == self.bytes.len() {
            return self.err(ParseError::Eof);
        }
        let more: bool = self.bytes[i] == '\\' as u8;
        append(out, &self.bytes[0..i]);
        proof {
            let t = start.rest.skip(e.used as int);
            assert(out@ =~= old(out)@ + (encode_scalar(character as u32) + t.take(i as int)));
            start.lemma_compose(e.used, (i + 1) as nat);
        }
        let _ = self.advance(i + 1);
        Ok(more)
    }

    /// Whether the input goes on with this token.
    fn test_for(&self, s: &str) -> (r: bool)
        ensures
            r == text::bytes_of(s).is_prefix_of(self@.rest),
    {
        let token: &[u8] = s.as_bytes();
        if token.len() > self.bytes.len() {
            return false;
        }
        let mut i: usize = 0;
        while i < token.len()
            invariant
                i <= token@.len() <= self.bytes@.len(),
                forall|j: int| 0 <= j < i ==> token@[j] == self.bytes@[j],
                token@ == text::bytes_of(s),
            decreases token@.len() - i,
        {
            if self.bytes[i] != token[i] {
                assert(self@.rest.subrange(0, token@.len() as int)[i as int] != token@[i as int]);
                return false;
            }
            i += 1;
        }
        assert(token@ =~= self@.rest.subrange(0, token@.len() as int));
        true
    }

    /// Reads what stands behind the `\` of an escape sequence.
    pub fn parse_escape(&mut self) -> (r: Result<char, Error>)
        requires
            old(self).wf(),
        ensures
            final(self).wf(),
            final(self)@ == old(self)@.advanced(grammar::escape(old(self)@.rest).used),
            r == old(self)@.answer(grammar::escape(old(self)@.rest)),
    {
        proof {
            reveal(grammar::escape);
        }
        let ghost start = self@;
        proof {
            reveal_with_fuel(Cursor::advanced, 2);
        }
        let b: u8 = match self.eat_byte() {
            Ok(b) => b,
            Err(e) => {
                return Err(e);
            },
        };
        proof {
            let t = start.rest.drop_first();
            start.lemma_answer_behind(grammar::ascii_escape(t), 1);
            start.lemma_answer_behind(grammar::unicode_escape(t), 1);
        }
        if b == '\'' as u8 {
            Ok('\'')
        } else if b == '"' as u8 {
            Ok('"')
        } else if b == '\\' as u8 {
            Ok('\\')
        } else if b == 'n' as u8 {
            Ok('\n')
        } else if b == 'r' as u8 {
            Ok('\r')
        } else if b == 't' as u8 {
            Ok('\t')
        } else if b == 'x' as u8 {
            match self.decode_ascii_escape() {
                Ok(code) => Ok(code as char),
                Err(e) => Err(e),
            }
        } else if b == 'u' as u8 {
            self.decode_unicode_escape()
        } else {
            self.err(ParseError::InvalidEscape("Unknown escape character"))
        }
    }

    /// Reads the two digits of an escape sequence `\x`.
    pub fn decode_ascii_escape(&mut self) -> (r: Result<u8, Error>)
        requires
            old(self).wf(),
        ensures
            final(self).wf(),
            final(self)@ == old(self)@.advanced(grammar::ascii_escape(old(self)@.rest).used),
            r == old(self)@.answer(grammar::ascii_escape(old(self)@.rest)),
    {
        let ghost start = self@;
        let mut n: u8 = 0;
        let mut i: usize = 0;
        while i < 2
            invariant
                start == old(self)@,
                self.wf(),
                i <= 2,
                i <= start.rest.len(),
                self@ == start.advanced(i as nat),
                i == 0 ==> n == 0,
                i > 0 ==> num::digit_value(start.rest[0]) < 16,
                i > 1 ==> num::digit_value(start.rest[1]) < 16,
                i == 1 ==> n == num::digit_value(start.rest[0]),
                i == 2 ==> n == 16 * num::digit_value(start.rest[0]) + num::digit_value(
                    start.rest[1],
                ),
            decreases 2 - i,
        {
            proof {
                start.lemma_rest(i as nat);
                reveal_with_fuel(Cursor::advanced, 3);
            }
            let byte: u8 = match self.eat_byte() {
                Ok(b) => b,
                Err(e) => {
                    return Err(e);
                },
            };
            let d: u8 = match self.decode_hex(byte) {
                Ok(d) => d,
                Err(e) => {
                    return Err(e);
                },
            };
            assert(n < 16 && d < 16 ==> (n << 4) | d == 16 * n + d) by (bit_vector);
            n = (n << 4) | d;
            i += 1;
        }
        Ok(n)
    }

    /// Reads the digits in braces of an escape sequence `\u`.
    fn decode_unicode_escape(&mut self) -> (r: Result<char, Error>)
        requires
            old(self).wf(),
        ensures
            final(self).wf(),
            final(self)@ == old(self)@.advanced(grammar::unicode_escape(old(self)@.rest).used),
            r == old(self)@.answer(grammar::unicode_escape(old(self)@.rest)),
    {
        proof {
            reveal(grammar::unicode_escape);
        }
        let ghost start = self@;
        proof {
            reveal_with_fuel(Cursor::advanced, 2);
        }
        match self.expect_byte('{' as u8, ParseError::InvalidEscape("Missing {")) {
            Ok(_) => {},
            Err(e) => {
                return Err(e);
            },
        }
        let ghost t = start.rest.drop_first();
        let mut code: u32 = 0;
        let mut digits: usize = 0;
        proof {
            grammar::lemma_run(t, ByteClass::Digit);
            assert(t.take(0) =~= Seq::<u8>::empty());
        }
        while digits < 6
            invariant_except_break
                start == old(self)@,
                start.rest.len() > 0,
                start.rest[0] == '{' as u8,
                t == start.rest.drop_first(),
                self.wf(),
                digits <= 6,
                digits <= t.len(),
                self@ == start.advanced((digits + 1) as nat),
                code == num::digits_value(t.take(digits as int), 16),
                code < sixteen_to(digits as nat),
                forall|i: int| 0 <= i < digits ==> num::digit_value(#[trigger] t[i]) < 16,
                digits <= grammar::run(t, ByteClass::Digit) <= t.len(),
                forall|i: int|
                    0 <= i < grammar::run(t, ByteClass::Digit) ==> ByteClass::Digit.has(
                        #[trigger] t[i],
                    ),
                grammar::run(t, ByteClass::Digit) < t.len() ==> !ByteClass::Digit.has(
                    t[grammar::run(t, ByteClass::Digit) as int],
                ),
            ensures
                self.wf(),
                digits <= 6,
                digits <= t.len(),
                digits <= grammar::run(t, ByteClass::Digit),
                digits == 6 || (digits == grammar::run(t, ByteClass::Digit) && digits < t.len()
                    && t[digits as int] == '}' as u8),
                self@ == start.advanced((digits + 1) as nat),
                code == num::digits_value(t.take(digits as int), 16),
                code < sixteen_to(digits as nat),
            decreases 6 - digits,
        {
            proof {
                reveal(grammar::unicode_escape);
                reveal_with_fuel(sixteen_to, 7);
                start.lemma_rest((digits + 1) as nat);
                assert(digits < t.len() ==> self@.rest[0] == t[digits as int]);
            }
            let byte: u8 = match self.peek_or_eof() {
                Ok(b) => b,
                Err(e) => {
                    return Err(e);
                },
            };
            if byte == '}' as u8 {
                break;
            }
            let _ = self.advance_single();
            let d: u8 = match self.decode_hex(byte) {
                Ok(d) => d,
                Err(e) => {
                    return Err(e);
                },
            };
            proof {
                let next = t.take(digits + 1);
                assert(next.drop_last() =~= t.take(digits as int));
                assert(next.last() == byte);
                let wide = d as u32;
                assert(code < 0x100000 && wide < 16 ==> (code << 4) | wide == 16 * code + wide)
                    by (bit_vector);
            }
            code = (code << 4) | d as u32;
            digits += 1;
        }
        if digits == 0 {
            return self.err(ParseError::InvalidEscape("Expected 1-6 digits, got 0 digits"));
        }
        proof {
            reveal_with_fuel(sixteen_to, 7);
            start.lemma_rest((digits + 1) as nat);
            assert(digits < t.len() ==> self@.rest[0] == t[digits as int]);
        }
        match self.expect_byte('}' as u8, ParseError::InvalidEscape("No } at the end")) {
            Ok(_) => {},
            Err(e) => {
                return Err(e);
            },
        }
        match std::char::from_u32(code) {
            Some(c) => Ok(c),
            None => self.err(ParseError::InvalidEscape("Not a valid char")),
        }
    }

    /// The value of a hexadecimal digit.
    fn decode_hex(&self, c: u8) -> (r: Result<u8, Error>)
        ensures
            r == if num::digit_value(c) < 16 {
                Ok::<u8, Error>(num::digit_value(c) as u8)
            } else {
                Err::<u8, Error>(
                    self@.error(ParseError::InvalidEscape("Non-hex digit found")),
                )
            },
    {
        if '0' as u8 <= c && c <= '9' as u8 {
            Ok(c - '0' as u8)
        } else if 'a' as u8 <= c && c <= 'f' as u8 {
            Ok(10 + (c - 'a' as u8))
        } else if 'A' as u8 <= c && c <= 'F' as u8 {
            Ok(10 + (c - 'A' as u8))
        } else {
            self.err(ParseError::InvalidEscape("Non-hex digit found"))
        }
    }
}

/// Whether a result answers an attempt to read attributes from a place.
pub open spec fn header_answer<T>(
    start: Cursor,
    o: Outcome<T, HeaderFault>,
    r: Result<T, Error>,
) -> bool {
    match o.result {
        Ok(v) => r == Ok::<T, Error>(v),
        Err(f) => r matches Err(Error::Parser(kind, position)) && f.kind.reported_as(kind)
            && position == start.advanced(f.at).position(),
    }
}

/// The same place with other extensions.
spec fn with_exts(c: Cursor, exts: Extensions) -> Cursor {
    Cursor { exts, ..c }
}

/// Which extensions are enabled has no bearing on where a parser goes.
proof fn lemma_advanced_exts(c: Cursor, exts: Extensions, n: nat)
    ensures
        with_exts(c, exts).advanced(n) == with_exts(c.advanced(n), exts),
    decreases n,
{
    if n > 0 {
        lemma_advanced_exts(c, exts, (n - 1) as nat);
    }
}

/// The text of an identifier.
fn ident_text(ident: &[u8]) -> (r: String)
    requires
        forall|i: int| 0 <= i < ident@.len() ==> ByteClass::IdentChar.has(#[trigger] ident@[i]),
    ensures
        encode_utf8(r@) == ident@,
{
    proof {
        text::lemma_ascii_is_utf8(ident@);
        decode_utf8_encode_utf8(ident@);
    }
    match text::str_from_utf8(ident) {
        Ok(s) => s.to_owned(),
        // Never taken: an identifier is ASCII.
        Err(_) => String::new(),
    }
}

/// The bytes of each token.
pub open spec fn token_bytes(all: Seq<&str>) -> Seq<Seq<u8>> {
    all.map_values(|token: &str| text::bytes_of(token))
}

/// A token of one byte.
proof fn lemma_single(s: Seq<u8>, b: u8)
    ensures
        seq![b].is_prefix_of(s) <==> s.len() > 0 && s[0] == b,
{
    if s.len() > 0 {
        assert(s.subrange(0, 1) =~= seq![s[0]]);
        assert(seq![b][0] == b);
        assert(seq![s[0]][0] == s[0]);
    }
}

/// A power of sixteen.
spec fn sixteen_to(n: nat) -> nat
    decreases n,
{
    if n == 0 {
        1
    } else {
        16 * sixteen_to((n - 1) as nat)
    }
}

/// Appends bytes.
fn append(out: &mut Vec<u8>, bytes: &[u8])
    ensures
        final(out)@ == old(out)@ + bytes@,
{
    out.extend_from_slice(bytes);
    assert(out@ =~= old(out)@ + bytes@);
}

/// Whether a byte is among some bytes.
fn is_among(b: u8, bytes: &[u8]) -> (r: bool)
    ensures
        r == bytes@.contains(b),
{
    let mut i: usize = 0;
    while i < bytes.len()
        invariant
            i <= bytes@.len(),
            forall|j: int| 0 <= j < i ==> bytes@[j] != b,
        decreases bytes@.len() - i,
    {
        if bytes[i] == b {
            return true;
        }
        i += 1;
    }
    false
}

} // verus!
