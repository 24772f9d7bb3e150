//! The grammar: what each token is, and how many bytes it takes.

use crate::cursor::{Fault, Outcome};
use crate::error::ParseError;
use crate::extensions::Extensions;
use crate::num;
use crate::num::Num;
use crate::text;
use vstd::prelude::*;
use vstd::utf8::*;

verus! {

/// Sets of bytes that the grammar scans over.
#[derive(Clone, Copy, Debug, PartialEq, Eq, Structural)]
pub enum ByteClass {
    /// Digits of any base up to sixteen.
    Digit,
    /// What a floating-point number is made of.
    FloatChar,
    /// What an identifier starts with.
    IdentFirst,
    /// What an identifier goes on with.
    IdentChar,
    /// Blanks.
    WhiteSpace,
    /// Everything up to the end of a line.
    Line,
    /// Everything up to a `'`.
    CharBody,
    /// Everything up to a `"` or a `\`.
    StringBody,
}

impl ByteClass {
    /// Whether a byte belongs to the set.
    pub open spec fn has(self, b: u8) -> bool {
        let decimal = '0' as u8 <= b <= '9' as u8;
        let lower = 'a' as u8 <= b <= 'z' as u8;
        let upper = 'A' as u8 <= b <= 'Z' as u8;
        match self {
            ByteClass::Digit => decimal || 'a' as u8 <= b <= 'f' as u8 || 'A' as u8 <= b
                <= 'F' as u8,
            ByteClass::FloatChar => decimal || b == '.' as u8 || b == '+' as u8 || b == '-' as u8
                || b == 'e' as u8 || b == 'E' as u8,
            ByteClass::IdentFirst => lower || upper || b == '_' as u8,
            ByteClass::IdentChar => lower || upper || b == '_' as u8 || decimal,
            ByteClass::WhiteSpace => b == '\n' as u8 || b == '\t' as u8 || b == '\r' as u8 || b
                == ' ' as u8,
            ByteClass::Line => b != '\n' as u8,
            ByteClass::CharBody => b != '\'' as u8,
            ByteClass::StringBody => b != '"' as u8 && b != '\\' as u8,
        }
    }

    /// Whether a byte belongs to the set.
    pub fn contains(self, b: u8) -> (r: bool)
        ensures
            r == self.has(b),
    {
        let decimal: bool = '0' as u8 <= b && b <= '9' as u8;
        let lower: bool = 'a' as u8 <= b && b <= 'z' as u8;
        let upper: bool = 'A' as u8 <= b && b <= 'Z' as u8;
        match self {
            ByteClass::Digit => decimal || ('a' as u8 <= b && b <= 'f' as u8) || ('A' as u8 <= b
                && b <= 'F' as u8),
            ByteClass::FloatChar => decimal || b == '.' as u8 || b == '+' as u8 || b == '-' as u8
                || b == 'e' as u8 || b == 'E' as u8,
            ByteClass::IdentFirst => lower || upper || b == '_' as u8,
            ByteClass::IdentChar => lower || upper || b == '_' as u8 || decimal,
            ByteClass::WhiteSpace => b == '\n' as u8 || b == '\t' as u8 || b == '\r' as u8 || b
                == ' ' as u8,
            ByteClass::Line => b != '\n' as u8,
            ByteClass::CharBody => b != '\'' as u8,
            ByteClass::StringBody => b != '"' as u8 && b != '\\' as u8,
        }
    }
}

/// How many bytes of the class the input starts with.
pub open spec fn run(s: Seq<u8>, class: ByteClass) -> nat
    decreases s.len(),
{
    if s.len() > 0 && class.has(s[0]) {
        1 + run(s.drop_first(), class)
    } else {
        0
    }
}

/// Whether the byte at an index exists and belongs to the class.
pub open spec fn has_at(s: Seq<u8>, i: int, class: ByteClass) -> bool {
    0 <= i < s.len() && class.has(s[i])
}

/// Whether this word stands here, and not merely at the beginning of a longer one.
pub open spec fn ident_at(s: Seq<u8>, word: Seq<u8>) -> bool {
    word.is_prefix_of(s) && !has_at(s, word.len() as int, ByteClass::IdentChar)
}

/// The bytes `//`.
pub open spec fn slashes() -> Seq<u8> {
    seq!['/' as u8, '/' as u8]
}

/// The bytes `true`.
pub open spec fn true_word() -> Seq<u8> {
    seq!['t' as u8, 'r' as u8, 'u' as u8, 'e' as u8]
}

/// The bytes `false`.
pub open spec fn false_word() -> Seq<u8> {
    seq!['f' as u8, 'a' as u8, 'l' as u8, 's' as u8, 'e' as u8]
}

/// The bytes `enable`.
pub open spec fn enable_word() -> Seq<u8> {
    seq!['e' as u8, 'n' as u8, 'a' as u8, 'b' as u8, 'l' as u8, 'e' as u8]
}

/// How many bytes a comment takes: two slashes and the rest of their line, without
/// the line feed. 0 if the input does not start with one.
pub open spec fn comment(s: Seq<u8>) -> nat {
    if slashes().is_prefix_of(s) {
        2 + run(s.skip(2), ByteClass::Line)
    } else {
        0
    }
}

/// How many bytes of blanks and comments the input starts with.
pub open spec fn blank(s: Seq<u8>) -> nat
    decreases s.len(),
{
    if has_at(s, 0, ByteClass::WhiteSpace) {
        1 + blank(s.drop_first())
    } else if slashes().is_prefix_of(s) {
        proof {
            lemma_run(s.skip(2), ByteClass::Line);
        }
        comment(s) + blank(s.skip(comment(s) as int))
    } else {
        0
    }
}

/// A comma with the blanks around it: how many bytes, and whether there is one.
/// Without one, the blanks are consumed all the same.
pub open spec fn comma(s: Seq<u8>) -> (nat, bool) {
    let n = blank(s);
    if n < s.len() && s[n as int] == ',' as u8 {
        (n + 1 + blank(s.skip(n as int + 1)), true)
    } else {
        (n, false)
    }
}

/// Tokens, each with the blanks behind it, as far as they are there: how many bytes,
/// and whether all of them are.
pub open spec fn tokens(s: Seq<u8>, all: Seq<Seq<u8>>) -> (nat, bool)
    decreases all.len(),
{
    if all.len() == 0 {
        (0, true)
    } else if all[0].is_prefix_of(s) {
        let n = all[0].len() + blank(s.skip(all[0].len() as int));
        let (m, complete) = tokens(s.skip(n as int), all.drop_first());
        (n + m, complete)
    } else {
        (0, false)
    }
}

/// A boolean.
pub open spec fn boolean(s: Seq<u8>) -> Outcome<bool, ParseError> {
    if true_word().is_prefix_of(s) {
        Outcome::value(4, true)
    } else if false_word().is_prefix_of(s) {
        Outcome::value(5, false)
    } else {
        Outcome::fault(0, ParseError::ExpectedBoolean)
    }
}

/// An identifier: as many bytes as can belong to one.
pub open spec fn identifier(s: Seq<u8>) -> Outcome<Seq<u8>, ParseError> {
    if s.len() == 0 {
        Outcome::fault(0, ParseError::Eof)
    } else if !ByteClass::IdentFirst.has(s[0]) {
        Outcome::fault(0, ParseError::ExpectedIdentifier)
    } else {
        let n = run(s, ByteClass::IdentChar);
        Outcome::value(n, s.take(n as int))
    }
}

/// The ways in which an attribute can be malformed.
pub enum HeaderFault {
    Syntax(ParseError),
    /// There is no extension of this name.
    UnknownExtension(Seq<u8>),
}

impl HeaderFault {
    /// Whether an error of the parser reports this.
    pub open spec fn reported_as(self, kind: ParseError) -> bool {
        match self {
            HeaderFault::Syntax(e) => kind == e,
            HeaderFault::UnknownExtension(name) => kind matches ParseError::NoSuchExtension(s)
                && encode_utf8(s@) == name,
        }
    }
}

/// What is read behind `n` bytes that enable some extensions, together with those.
pub open spec fn joined(
    exts: Extensions,
    n: nat,
    others: Outcome<Extensions, HeaderFault>,
) -> Outcome<Extensions, HeaderFault> {
    match others.result {
        Ok(o) => Outcome::value(n + others.used, exts.or(o)),
        Err(_) => others.behind(n),
    }
}

/// The name of an extension with the comma behind it, which may be left out behind the
/// last: the extension, and whether another name follows.
#[verifier::opaque]
pub open spec fn extension_item(s: Seq<u8>) -> Outcome<(Extensions, bool), HeaderFault> {
    let ident = identifier(s);
    match ident.result {
        Err(f) => Outcome::fault(ident.used, HeaderFault::Syntax(f.kind)),
        Ok(name) => match Extensions::named(name) {
            None => Outcome::fault(ident.used, HeaderFault::UnknownExtension(name)),
            Some(e) => {
                let (m, separated) = comma(s.skip(ident.used as int));
                let n = ident.used + m;
                let more = has_at(s, n as int, ByteClass::IdentChar);
                if more && !separated {
                    Outcome::fault(n, HeaderFault::Syntax(ParseError::ExpectedComma))
                } else {
                    Outcome::value(n, (e, more))
                }
            },
        },
    }
}

/// The names of extensions, at least one.
pub open spec fn extension_names(s: Seq<u8>) -> Outcome<Extensions, HeaderFault>
    decreases s.len(),
{
    let item = extension_item(s);
    match item.result {
        Err(f) => Outcome { used: item.used, result: Err(f) },
        Ok((e, more)) => if more {
            proof {
                lemma_extension_item(s);
            }
            joined(e, item.used, extension_names(s.skip(item.used as int)))
        } else {
            Outcome::value(item.used, e)
        },
    }
}

/// The tokens in front of the names in an attribute.
pub open spec fn attribute_start() -> Seq<Seq<u8>> {
    seq![seq!['#' as u8], seq!['!' as u8], seq!['[' as u8], enable_word(), seq!['(' as u8]]
}

/// The tokens behind the names in an attribute.
pub open spec fn attribute_end() -> Seq<Seq<u8>> {
    seq![seq![')' as u8], seq![']' as u8]]
}

/// Whether an attribute starts here.
pub open spec fn at_attribute(s: Seq<u8>) -> bool {
    s.len() > 0 && s[0] == '#' as u8
}

/// An attribute that enables extensions, with the blanks behind it. Where none
/// starts, nothing is enabled.
#[verifier::opaque]
pub open spec fn attribute(s: Seq<u8>) -> Outcome<Extensions, HeaderFault> {
    if !at_attribute(s) {
        Outcome::value(0, Extensions::none())
    } else {
        let (n, opened) = tokens(s, attribute_start());
        if !opened {
            Outcome::fault(n, HeaderFault::Syntax(ParseError::ExpectedAttribute))
        } else {
            let names = extension_names(s.skip(n as int));
            match names.result {
                Err(_) => names.behind(n),
                Ok(e) => {
                    let m = n + names.used;
                    let (k, closed) = tokens(s.skip(m as int), attribute_end());
                    if closed {
                        Outcome::value(m + k, e)
                    } else {
                        Outcome::fault(
                            m + k,
                            HeaderFault::Syntax(ParseError::ExpectedAttributeEnd),
                        )
                    }
                },
            }
        }
    }
}

/// Attributes, as many as there are.
pub open spec fn attributes(s: Seq<u8>) -> Outcome<Extensions, HeaderFault>
    decreases s.len(),
{
    if !at_attribute(s) {
        Outcome::value(0, Extensions::none())
    } else {
        let first = attribute(s);
        match first.result {
            Err(_) => first,
            Ok(e) => {
                proof {
                    lemma_attribute(s);
                }
                joined(e, first.used, attributes(s.skip(first.used as int)))
            },
        }
    }
}

/// What stands in front of a document: blanks and attributes.
pub open spec fn header(s: Seq<u8>) -> Outcome<Extensions, HeaderFault> {
    attributes(s.skip(blank(s) as int)).behind(blank(s))
}

/// Two hexadecimal digits.
pub open spec fn ascii_escape(s: Seq<u8>) -> Outcome<u8, ParseError> {
    if s.len() == 0 {
        Outcome::fault(0, ParseError::Eof)
    } else if num::digit_value(s[0]) >= 16 {
        Outcome::fault(1, ParseError::InvalidEscape("Non-hex digit found"))
    } else if s.len() == 1 {
        Outcome::fault(1, ParseError::Eof)
    } else if num::digit_value(s[1]) >= 16 {
        Outcome::fault(2, ParseError::InvalidEscape("Non-hex digit found"))
    } else {
        Outcome::value(2, (16 * num::digit_value(s[0]) + num::digit_value(s[1])) as u8)
    }
}

/// One to six hexadecimal digits in braces, which number a Unicode scalar value.
#[verifier::opaque]
pub open spec fn unicode_escape(s: Seq<u8>) -> Outcome<char, ParseError> {
    if s.len() == 0 {
        Outcome::fault(0, ParseError::Eof)
    } else if s[0] != '{' as u8 {
        Outcome::fault(1, ParseError::InvalidEscape("Missing {"))
    } else {
        let t = s.drop_first();
        let d: nat = if run(t, ByteClass::Digit) < 6 {
            run(t, ByteClass::Digit)
        } else {
            6
        };
        let code = num::digits_value(t.take(d as int), 16);
        if d == t.len() {
            Outcome::fault(d + 1, ParseError::Eof)
        } else if t[d as int] != '}' as u8 {
            if d < 6 {
                Outcome::fault(d + 2, ParseError::InvalidEscape("Non-hex digit found"))
            } else {
                Outcome::fault(d + 2, ParseError::InvalidEscape("No } at the end"))
            }
        } else if d == 0 {
            Outcome::fault(1, ParseError::InvalidEscape("Expected 1-6 digits, got 0 digits"))
        } else if !is_scalar(code as u32) {
            Outcome::fault(d + 2, ParseError::InvalidEscape("Not a valid char"))
        } else {
            Outcome::value(d + 2, code as char)
        }
    }
}

/// What stands behind the `\` of an escape sequence.
#[verifier::opaque]
pub open spec fn escape(s: Seq<u8>) -> Outcome<char, ParseError> {
    if s.len() == 0 {
        Outcome::fault(0, ParseError::Eof)
    } else if s[0] == '\'' as u8 {
        Outcome::value(1, '\'')
    } else if s[0] == '"' as u8 {
        Outcome::value(1, '"')
    } else if s[0] == '\\' as u8 {
        Outcome::value(1, '\\')
    } else if s[0] == 'n' as u8 {
        Outcome::value(1, '\n')
    } else if s[0] == 'r' as u8 {
        Outcome::value(1, '\r')
    } else if s[0] == 't' as u8 {
        Outcome::value(1, '\t')
    } else if s[0] == 'x' as u8 {
        let code = ascii_escape(s.drop_first());
        Outcome {
            used: 1 + code.used,
            result: match code.result {
                Ok(b) => Ok(b as char),
                Err(f) => Err(Fault { kind: f.kind, at: 1 + f.at }),
            },
        }
    } else if s[0] == 'u' as u8 {
        unicode_escape(s.drop_first()).behind(1)
    } else {
        Outcome::fault(1, ParseError::InvalidEscape("Unknown escape character"))
    }
}

/// A character in single quotes.
pub open spec fn character(s: Seq<u8>) -> Outcome<char, ParseError> {
    if s.len() == 0 || s[0] != '\'' as u8 {
        Outcome::fault(0, ParseError::ExpectedChar)
    } else if s.len() == 1 {
        Outcome::fault(1, ParseError::Eof)
    } else if s[1] == '\\' as u8 {
        let e = escape(s.skip(2));
        let n = 2 + e.used;
        match e.result {
            Err(_) => e.behind(2),
            Ok(c) => if n < s.len() && s[n as int] == '\'' as u8 {
                Outcome::value(n + 1, c)
            } else {
                Outcome::fault(n, ParseError::ExpectedChar)
            },
        }
    } else {
        // No character takes more than four bytes.
        let t = s.skip(1);
        let window = if t.len() < 5 {
            t
        } else {
            t.take(5)
        };
        let n = run(window, ByteClass::CharBody);
        let body = t.take(n as int);
        if n == window.len() {
            Outcome::fault(1, ParseError::ExpectedChar)
        } else if !valid_utf8(body) {
            Outcome::fault(1, ParseError::Utf8Error(text::utf8_error(body)))
        } else if decode_utf8(body).len() != 1 {
            Outcome::fault(1, ParseError::ExpectedChar)
        } else {
            Outcome::value(n + 2, decode_utf8(body)[0])
        }
    }
}

/// The value of a string: its text, and whether it was written with escapes.
pub struct StringValue {
    pub text: Seq<char>,
    pub escaped: bool,
}

/// A piece of a string: what stands behind a `\`, and what follows up to the next `\` or
/// the closing `"`. The bytes that it stands for, and whether another piece follows.
pub open spec fn string_piece(s: Seq<u8>) -> Outcome<(Seq<u8>, bool), ParseError> {
    let e = escape(s);
    match e.result {
        Err(f) => Outcome::fault(e.used, f.kind),
        Ok(c) => {
            let t = s.skip(e.used as int);
            let i = run(t, ByteClass::StringBody);
            if i == t.len() {
                Outcome::fault(e.used, ParseError::Eof)
            } else {
                Outcome::value(
                    e.used + i + 1,
                    (encode_scalar(c as u32) + t.take(i as int), t[i as int] == '\\' as u8),
                )
            }
        },
    }
}

/// The rest of a string, from behind a `\` on, after a beginning that stands for the
/// bytes `acc`.
pub open spec fn string_rest(s: Seq<u8>, acc: Seq<u8>) -> Outcome<StringValue, ParseError>
    decreases s.len(),
{
    let piece = string_piece(s);
    match piece.result {
        Err(f) => Outcome { used: piece.used, result: Err(f) },
        Ok((bytes, more)) => {
            let all = acc + bytes;
            if more {
                proof {
                    lemma_string_piece(s);
                }
                string_rest(s.skip(piece.used as int), all).behind(piece.used)
            } else if valid_utf8(all) {
                Outcome::value(piece.used, StringValue { text: decode_utf8(all), escaped: true })
            } else {
                Outcome::fault(piece.used, ParseError::Utf8Error(text::utf8_error(all)))
            }
        },
    }
}

/// A string in double quotes.
pub open spec fn string(s: Seq<u8>) -> Outcome<StringValue, ParseError> {
    if s.len() == 0 || s[0] != '"' as u8 {
        Outcome::fault(0, ParseError::ExpectedString)
    } else {
        let t = s.drop_first();
        let i = run(t, ByteClass::StringBody);
        let body = t.take(i as int);
        if i == t.len() {
            Outcome::fault(1, ParseError::ExpectedStringEnd)
        } else if t[i as int] == '\\' as u8 {
            string_rest(t.skip(i as int + 1), body).behind(i + 2)
        } else if valid_utf8(body) {
            Outcome::value(i + 2, StringValue { text: decode_utf8(body), escaped: false })
        } else {
            Outcome::fault(1, ParseError::Utf8Error(text::utf8_error(body)))
        }
    }
}

/// The base of the integer that stands here, as its prefix tells: `0x`, `0b` or `0o`.
pub open spec fn radix(s: Seq<u8>) -> nat {
    if s.len() < 2 || s[0] != '0' as u8 {
        10
    } else if s[1] == 'x' as u8 {
        16
    } else if s[1] == 'b' as u8 {
        2
    } else if s[1] == 'o' as u8 {
        8
    } else {
        10
    }
}

/// An integer without a sign. Digits that are none of its base, or that write a number
/// too large for the type, are consumed and blamed from their beginning.
pub open spec fn unsigned<T: Num>(s: Seq<u8>) -> Outcome<T, ParseError> {
    let p: nat = if radix(s) == 10 {
        0
    } else {
        2
    };
    let d = run(s.skip(p as int), ByteClass::Digit);
    if d == 0 {
        Outcome::fault(p, ParseError::ExpectedInteger)
    } else {
        Outcome {
            used: p + d,
            result: match T::parsed(s.subrange(p as int, (p + d) as int), radix(s)) {
                Some(v) => Ok(v),
                None => Err(Fault { kind: ParseError::ExpectedInteger, at: p }),
            },
        }
    }
}

/// An integer with an optional sign: whether it is `-`, and the integer behind it.
pub open spec fn signed<T: Num>(s: Seq<u8>) -> Outcome<(bool, T), ParseError> {
    if s.len() == 0 {
        Outcome::fault(0, ParseError::Eof)
    } else {
        let negative = s[0] == '-' as u8;
        let number = if negative || s[0] == '+' as u8 {
            unsigned::<T>(s.drop_first()).behind(1)
        } else {
            unsigned::<T>(s)
        };
        Outcome {
            used: number.used,
            result: match number.result {
                Ok(v) => Ok((negative, v)),
                Err(f) => Err(f),
            },
        }
    }
}

/// The bytes that can belong to a floating-point number.
pub open spec fn float_text(s: Seq<u8>) -> Seq<u8> {
    s.take(run(s, ByteClass::FloatChar) as int)
}

/// What a run is: everything before its end belongs to the class, what stands there
/// does not.
pub proof fn lemma_run(s: Seq<u8>, class: ByteClass)
    ensures
        run(s, class) <= s.len(),
        forall|i: int| 0 <= i < run(s, class) ==> class.has(#[trigger] s[i]),
        run(s, class) < s.len() ==> !class.has(s[run(s, class) as int]),
    decreases s.len(),
{
    if s.len() > 0 && class.has(s[0]) {
        let t = s.drop_first();
        lemma_run(t, class);
        assert forall|i: int| 0 <= i < run(s, class) implies class.has(#[trigger] s[i]) by {
            if i > 0 {
                assert(s[i] == t[i - 1]);
            }
        }
    }
}

/// A run ends where the first byte stands that does not belong to it.
pub proof fn lemma_run_is(s: Seq<u8>, class: ByteClass, k: nat)
    requires
        k <= s.len(),
        forall|i: int| 0 <= i < k ==> class.has(#[trigger] s[i]),
        k < s.len() ==> !class.has(s[k as int]),
    ensures
        run(s, class) == k,
{
    lemma_run(s, class);
    let r = run(s, class);
    if r < k {
        assert(class.has(s[r as int]));
    } else if k < r {
        assert(class.has(s[k as int]));
    }
}

/// Blanks lie within the input, and nothing that follows them is blank.
pub proof fn lemma_blank(s: Seq<u8>)
    ensures
        blank(s) <= s.len(),
        blank(s.skip(blank(s) as int)) == 0,
        comment(s) <= s.len(),
    decreases s.len(),
{
    lemma_run(s.skip(2), ByteClass::Line);
    if has_at(s, 0, ByteClass::WhiteSpace) {
        let t = s.drop_first();
        lemma_blank(t);
        assert(t.skip(blank(t) as int) =~= s.skip(blank(s) as int));
    } else if slashes().is_prefix_of(s) {
        let t = s.skip(comment(s) as int);
        lemma_blank(t);
        assert(t.skip(blank(t) as int) =~= s.skip(blank(s) as int));
    } else {
        assert(s.skip(0) =~= s);
    }
}

/// A comma lies within the input, and no blanks follow.
pub proof fn lemma_comma(s: Seq<u8>)
    ensures
        comma(s).0 <= s.len(),
        blank(s.skip(comma(s).0 as int)) == 0,
{
    let n = blank(s);
    lemma_blank(s);
    if n < s.len() && s[n as int] == ',' as u8 {
        let t = s.skip(n as int + 1);
        lemma_blank(t);
        assert(t.skip(blank(t) as int) =~= s.skip(comma(s).0 as int));
    }
}

/// Tokens lie within the input; if there were any, no blanks follow.
pub proof fn lemma_tokens(s: Seq<u8>, all: Seq<Seq<u8>>)
    ensures
        tokens(s, all).0 <= s.len(),
        all.len() > 0 && tokens(s, all).1 ==> tokens(s, all).0 >= all[0].len() && blank(
            s.skip(tokens(s, all).0 as int),
        ) == 0,
    decreases all.len(),
{
    if all.len() > 0 && all[0].is_prefix_of(s) {
        let t = s.skip(all[0].len() as int);
        lemma_blank(t);
        let n = all[0].len() + blank(t);
        let u = s.skip(n as int);
        assert(t.skip(blank(t) as int) =~= u);
        lemma_tokens(u, all.drop_first());
        assert(u.skip(tokens(u, all.drop_first()).0 as int) =~= s.skip(tokens(s, all).0 as int));
    }
}

/// An identifier lies within the input and is not empty.
pub proof fn lemma_identifier(s: Seq<u8>)
    ensures
        identifier(s).within(s.len()),
        identifier(s).result is Ok ==> identifier(s).used > 0,
{
    lemma_run(s, ByteClass::IdentChar);
}

/// A name lies within the input, is one of an extension, and no blanks follow.
pub proof fn lemma_extension_item(s: Seq<u8>)
    ensures
        extension_item(s).within(s.len()),
        extension_item(s).result matches Ok((e, _)) ==> e.bits != 0 && extension_item(s).used > 0
            && blank(s.skip(extension_item(s).used as int)) == 0,
{
    reveal(extension_item);
    let ident = identifier(s);
    lemma_identifier(s);
    if ident.result is Ok {
        let t = s.skip(ident.used as int);
        lemma_comma(t);
        assert(t.skip(comma(t).0 as int) =~= s.skip((ident.used + comma(t).0) as int));
    }
}

/// Names of extensions lie within the input, name at least one, and no blanks follow.
pub proof fn lemma_extension_names(s: Seq<u8>)
    ensures
        extension_names(s).within(s.len()),
        extension_names(s).result matches Ok(e) ==> e.bits != 0 && blank(
            s.skip(extension_names(s).used as int),
        ) == 0,
    decreases s.len(),
{
    let item = extension_item(s);
    lemma_extension_item(s);
    if let Ok((e, more)) = item.result {
        if more {
            let t = s.skip(item.used as int);
            lemma_extension_names(t);
            let others = extension_names(t);
            assert(t.skip(others.used as int) =~= s.skip(extension_names(s).used as int));
            if let Ok(o) = others.result {
                let (x, y) = (e.bits, o.bits);
                assert(x != 0 ==> x | y != 0) by (bit_vector);
            }
        }
    }
}

/// Joining is associative.
pub proof fn lemma_joined(
    a: Extensions,
    n: nat,
    b: Extensions,
    m: nat,
    o: Outcome<Extensions, HeaderFault>,
)
    ensures
        joined(a, n, joined(b, m, o)) == joined(a.or(b), n + m, o),
{
    if let Ok(c) = o.result {
        let (x, y, z) = (a.bits, b.bits, c.bits);
        assert((x | y) | z == x | (y | z)) by (bit_vector);
    }
}

/// Joining nothing changes nothing.
pub proof fn lemma_joined_none(o: Outcome<Extensions, HeaderFault>, n: nat)
    ensures
        joined(Extensions::none(), n, o) == o.behind(n),
{
    if let Ok(e) = o.result {
        let x = e.bits;
        assert(0usize | x == x) by (bit_vector);
    }
}

/// An attribute lies within the input, is not empty and enables something, and no
/// blanks follow.
pub proof fn lemma_attribute(s: Seq<u8>)
    ensures
        attribute(s).within(s.len()),
        !at_attribute(s) ==> attribute(s) == Outcome::<Extensions, HeaderFault>::value(
            0,
            Extensions::none(),
        ),
        at_attribute(s) ==> (attribute(s).result matches Ok(e) ==> e.bits != 0 && attribute(s).used
            > 0 && blank(s.skip(attribute(s).used as int)) == 0),
{
    reveal(attribute);
    if at_attribute(s) {
        let (n, opened) = tokens(s, attribute_start());
        lemma_tokens(s, attribute_start());
        if opened {
            let t = s.skip(n as int);
            let names = extension_names(t);
            lemma_extension_names(t);
            if names.result is Ok {
                let m = n + names.used;
                let u = s.skip(m as int);
                lemma_tokens(u, attribute_end());
                assert(u.skip(tokens(u, attribute_end()).0 as int) =~= s.skip(
                    (m + tokens(u, attribute_end()).0) as int,
                ));
            }
        }
    }
}

/// Attributes lie within the input.
pub proof fn lemma_attributes(s: Seq<u8>)
    ensures
        attributes(s).within(s.len()),
    decreases s.len(),
{
    if at_attribute(s) {
        lemma_attribute(s);
        if attribute(s).result is Ok {
            lemma_attributes(s.skip(attribute(s).used as int));
        }
    }
}

/// An escape sequence lies within the input and is not empty.
pub proof fn lemma_escape(s: Seq<u8>)
    ensures
        escape(s).within(s.len()),
        ascii_escape(s).within(s.len()),
        unicode_escape(s).within(s.len()),
        escape(s).result is Ok ==> escape(s).used > 0,
        escape(s).result matches Err(f) ==> f.at == escape(s).used,
{
    reveal(escape);
    reveal(unicode_escape);
    if s.len() > 0 {
        lemma_run(s.drop_first(), ByteClass::Digit);
        if s.len() > 1 {
            lemma_run(s.drop_first().drop_first(), ByteClass::Digit);
        }
    }
}

/// A piece of a string lies within the input and is not empty.
pub proof fn lemma_string_piece(s: Seq<u8>)
    ensures
        string_piece(s).within(s.len()),
        string_piece(s).result is Ok ==> string_piece(s).used > 0,
        string_piece(s).result matches Err(f) ==> f.at == string_piece(s).used,
{
    lemma_escape(s);
    lemma_run(s.skip(escape(s).used as int), ByteClass::StringBody);
}

/// The rest of a string lies within the input.
pub proof fn lemma_string_rest(s: Seq<u8>, acc: Seq<u8>)
    ensures
        string_rest(s, acc).within(s.len()),
        string_rest(s, acc).result matches Ok(v) ==> v.escaped,
    decreases s.len(),
{
    let piece = string_piece(s);
    lemma_string_piece(s);
    if let Ok((bytes, more)) = piece.result {
        if more {
            lemma_string_rest(s.skip(piece.used as int), acc + bytes);
        }
    }
}

/// A string lies within the input.
pub proof fn lemma_string(s: Seq<u8>)
    ensures
        string(s).within(s.len()),
{
    if s.len() > 0 && s[0] == '"' as u8 {
        let t = s.drop_first();
        let i = run(t, ByteClass::StringBody);
        lemma_run(t, ByteClass::StringBody);
        if i < t.len() && t[i as int] == '\\' as u8 {
            lemma_string_rest(t.skip(i as int + 1), t.take(i as int));
        }
    }
}

/// A character lies within the input.
pub proof fn lemma_character(s: Seq<u8>)
    ensures
        character(s).within(s.len()),
{
    if s.len() > 1 && s[0] == '\'' as u8 {
        lemma_escape(s.skip(2));
        lemma_run(s.skip(1), ByteClass::CharBody);
        lemma_run(s.skip(1).take(5), ByteClass::CharBody);
    }
}

/// An integer lies within the input.
pub proof fn lemma_unsigned<T: Num>(s: Seq<u8>)
    ensures
        unsigned::<T>(s).within(s.len()),
{
    lemma_run(s, ByteClass::Digit);
    lemma_run(s.skip(2), ByteClass::Digit);
    assert(s.skip(0) =~= s);
}

} // verus!
