//! Characters and strings, written and read back.

use crate::cursor::Outcome;
use crate::error::ParseError;
use crate::grammar;
use crate::grammar::{ByteClass, StringValue};
use crate::laws::alphabet;
use crate::num;
use crate::text;
use vstd::prelude::*;
use vstd::utf8::*;

verus! {

/// The bytes that write a character between single quotes: a `\` goes in front of a `\`
/// and a `'`.
pub open spec fn written_char(c: char) -> Seq<u8> {
    if c == '\\' || c == '\'' {
        seq!['\\' as u8, c as u8]
    } else {
        encode_scalar(c as u32)
    }
}

/// A character in a string, as it stands or written as an escape sequence, which is given
/// without its `\`.
pub struct Piece {
    pub c: char,
    pub escape: Option<Seq<u8>>,
}

impl Piece {
    /// Whether this writes the character: as it stands, it is neither `"` nor `\`; an escape
    /// sequence stands for it whatever follows.
    pub open spec fn valid(self) -> bool {
        match self.escape {
            None => self.c != '"' && self.c != '\\',
            Some(e) => forall|tail: Seq<u8>| #[trigger]
                grammar::escape(e + tail) == Outcome::<char, ParseError>::value(e.len(), self.c),
        }
    }

    /// The bytes that write it.
    pub open spec fn bytes(self) -> Seq<u8> {
        match self.escape {
            None => encode_scalar(self.c as u32),
            Some(e) => seq!['\\' as u8] + e,
        }
    }
}

/// The bytes that write a text, piece by piece.
pub open spec fn written_pieces(pieces: Seq<Piece>) -> Seq<u8>
    decreases pieces.len(),
{
    if pieces.len() == 0 {
        Seq::empty()
    } else {
        pieces[0].bytes() + written_pieces(pieces.drop_first())
    }
}

/// The text that pieces write.
pub open spec fn text_of(pieces: Seq<Piece>) -> Seq<char> {
    pieces.map_values(|p: Piece| p.c)
}

/// Whether a piece is written as an escape sequence.
pub open spec fn has_escapes(pieces: Seq<Piece>) -> bool
    decreases pieces.len(),
{
    pieces.len() > 0 && (pieces[0].escape is Some || has_escapes(pieces.drop_first()))
}

/// A character as a piece: an escape sequence if it is `"` or `\`.
pub open spec fn plain_piece(c: char) -> Piece {
    Piece {
        c,
        escape: if c == '"' || c == '\\' {
            Some(seq![c as u8])
        } else {
            None
        },
    }
}

/// A text with escape sequences only where it needs them.
pub open spec fn plain_pieces(text: Seq<char>) -> Seq<Piece> {
    text.map_values(|c: char| plain_piece(c))
}

/// Every character, written in single quotes, is read back, whatever follows.
pub proof fn law_char_round_trip(c: char, tail: Seq<u8>)
    ensures
        grammar::character(
            seq!['\'' as u8] + written_char(c) + seq!['\'' as u8] + tail,
        ) == Outcome::<char, ParseError>::value(written_char(c).len() + 2, c),
{
    reveal(grammar::escape);
    let enc = encode_scalar(c as u32);
    let s = seq!['\'' as u8] + written_char(c) + seq!['\'' as u8] + tail;
    if c == '\\' || c == '\'' {
        let b = c as u8;
        assert(s.skip(2)[0] == b);
        assert(s[3] == '\'' as u8);
    } else {
        lemma_encoding(c);
        let t = s.skip(1);
        let window = if t.len() < 5 {
            t
        } else {
            t.take(5)
        };
        assert forall|i: int| 0 <= i < enc.len() implies #[trigger] window[i] == enc[i] by {}
        assert(window[enc.len() as int] == '\'' as u8);
        assert forall|i: int| 0 <= i < enc.len() implies ByteClass::CharBody.has(
            #[trigger] window[i],
        ) by {
            assert(enc[i] != '\'' as u8);
        }
        grammar::lemma_run_is(window, ByteClass::CharBody, enc.len());
        assert(t.take(enc.len() as int) =~= enc);
        assert(s[1] == enc[0]);
    }
}

/// Whichever way the characters of a text are written in double quotes, the text is read
/// back, whatever follows. It is taken from the input as it stands if there are no escape
/// sequences.
pub proof fn law_string_pieces(pieces: Seq<Piece>, tail: Seq<u8>)
    requires
        forall|i: int| 0 <= i < pieces.len() ==> (#[trigger] pieces[i]).valid(),
    ensures
        grammar::string(
            seq!['"' as u8] + written_pieces(pieces) + seq!['"' as u8] + tail,
        ) == Outcome::<StringValue, ParseError>::value(
            written_pieces(pieces).len() + 2,
            StringValue { text: text_of(pieces), escaped: has_escapes(pieces) },
        ),
{
    let text = text_of(pieces);
    let s = seq!['"' as u8] + written_pieces(pieces) + seq!['"' as u8] + tail;
    let t = s.drop_first();
    let none = Seq::<u8>::empty();
    assert(t =~= written_pieces(pieces) + seq!['"' as u8] + tail);
    lemma_scan_pieces(pieces, none, false, tail);
    assert(none + encode_utf8(text) =~= encode_utf8(text));
    encode_utf8_decode_utf8(text);
    let i = grammar::run(t, ByteClass::StringBody) as int;
    grammar::lemma_run(t, ByteClass::StringBody);
    assert(none + t.take(i) =~= t.take(i));
}

/// Every text, written in double quotes with a `\` in front of each `"` and `\`, is read
/// back, whatever follows.
pub proof fn law_string_round_trip(text: Seq<char>, tail: Seq<u8>)
    ensures
        grammar::string(
            seq!['"' as u8] + written_pieces(plain_pieces(text)) + seq!['"' as u8] + tail,
        ) == Outcome::<StringValue, ParseError>::value(
            written_pieces(plain_pieces(text)).len() + 2,
            StringValue { text, escaped: has_escapes(plain_pieces(text)) },
        ),
{
    let pieces = plain_pieces(text);
    assert forall|i: int| 0 <= i < pieces.len() implies (#[trigger] pieces[i]).valid() by {
        let c = text[i];
        if c == '"' || c == '\\' {
            let e = seq![c as u8];
            assert forall|rest: Seq<u8>| #[trigger]
                grammar::escape(e + rest) == Outcome::<char, ParseError>::value(1, c) by {
                reveal(grammar::escape);
                assert((e + rest)[0] == c as u8);
            }
        }
    }
    law_string_pieces(pieces, tail);
    assert(text_of(pieces) =~= text);
}

/// A character can be given by its number, in one to six hexadecimal digits.
pub proof fn law_unicode_escape(c: char, digits: Seq<u8>, tail: Seq<u8>)
    requires
        digits.len() <= 6,
        num::natural(digits, 16) == Some(c as nat),
    ensures
        grammar::escape(
            seq!['u' as u8, '{' as u8] + digits + seq!['}' as u8] + tail,
        ) == Outcome::<char, ParseError>::value(digits.len() + 3, c),
{
    reveal(grammar::escape);
    reveal(grammar::unicode_escape);
    let s = seq!['u' as u8, '{' as u8] + digits + seq!['}' as u8] + tail;
    let u = s.drop_first();
    let t = u.drop_first();
    assert(u[0] == '{' as u8);
    assert(t =~= digits + seq!['}' as u8] + tail);
    assert forall|i: int| 0 <= i < digits.len() implies ByteClass::Digit.has(
        #[trigger] t[i],
    ) by {
        assert(t[i] == digits[i]);
    }
    assert(t[digits.len() as int] == '}' as u8);
    grammar::lemma_run_is(t, ByteClass::Digit, digits.len());
    assert(t.take(digits.len() as int) =~= digits);
    char_is_scalar(c);
}

/// A character below 256 can be given by its number, in two hexadecimal digits.
pub proof fn law_ascii_escape(c: char, digits: Seq<u8>, tail: Seq<u8>)
    requires
        digits.len() == 2,
        num::natural(digits, 16) == Some(c as nat),
    ensures
        grammar::escape(seq!['x' as u8] + digits + tail) == Outcome::<char, ParseError>::value(
            3,
            c,
        ),
{
    reveal(grammar::escape);
    let s = seq!['x' as u8] + digits + tail;
    let t = s.drop_first();
    assert(t[0] == digits[0]);
    assert(t[1] == digits[1]);
    reveal_with_fuel(num::digits_value, 3);
    assert(digits.drop_last().last() == digits[0]);
}

/// A hexadecimal digit, with its letter in upper case or in lower case.
pub open spec fn hex_digit(d: nat, upper: bool) -> u8 {
    if d < 10 {
        ('0' as u8 + d) as u8
    } else if upper {
        ('A' as u8 + d - 10) as u8
    } else {
        ('a' as u8 + d - 10) as u8
    }
}

/// A byte in two hexadecimal digits.
pub open spec fn hex_bytes(v: u8, upper: bool) -> Seq<u8> {
    seq![hex_digit(v as nat / 16, upper), hex_digit(v as nat % 16, upper)]
}

/// Every byte, in two hexadecimal digits of either case behind an `x`, gives the character
/// of that number, and no more than these are read.
pub proof fn law_byte_escape(v: u8, upper: bool, tail: Seq<u8>)
    ensures
        grammar::escape(seq!['x' as u8] + hex_bytes(v, upper) + tail) == Outcome::<
            char,
            ParseError,
        >::value(3, v as char),
        (seq!['x' as u8] + hex_bytes(v, upper) + tail).skip(3) == tail,
{
    let digits = hex_bytes(v, upper);
    reveal_with_fuel(num::digits_value, 3);
    assert(num::digit_value(digits[0]) == v as nat / 16);
    assert(num::digit_value(digits[1]) == v as nat % 16);
    assert(digits.drop_last().last() == digits[0]);
    assert(digits.drop_last().drop_last() =~= Seq::<u8>::empty());
    law_ascii_escape(v as char, digits, tail);
    assert((seq!['x' as u8] + digits + tail).skip(3) =~= tail);
}

/// What a scan of a string makes of its bytes, after a beginning that stands for `acc`.
spec fn scan(s: Seq<u8>, acc: Seq<u8>, escaped: bool) -> Outcome<StringValue, ParseError> {
    let i = grammar::run(s, ByteClass::StringBody);
    let all = acc + s.take(i as int);
    if i == s.len() {
        Outcome::fault(i, ParseError::Eof)
    } else if s[i as int] == '\\' as u8 {
        grammar::string_rest(s.skip(i as int + 1), all).behind(i + 1)
    } else if valid_utf8(all) {
        Outcome::value(i + 1, StringValue { text: decode_utf8(all), escaped })
    } else {
        Outcome::fault(i + 1, ParseError::Utf8Error(text::utf8_error(all)))
    }
}

proof fn lemma_scan_plain(p: Seq<u8>, s: Seq<u8>, acc: Seq<u8>, escaped: bool)
    requires
        forall|i: int| 0 <= i < p.len() ==> ByteClass::StringBody.has(#[trigger] p[i]),
    ensures
        scan(p + s, acc, escaped) == scan(s, acc + p, escaped).behind(p.len()),
{
    let i = grammar::run(s, ByteClass::StringBody);
    let j = p.len() + i;
    let q = p + s;
    grammar::lemma_run(s, ByteClass::StringBody);
    assert forall|k: int| 0 <= k < j implies ByteClass::StringBody.has(#[trigger] q[k]) by {
        if k < p.len() {
            assert(q[k] == p[k]);
        } else {
            assert(q[k] == s[k - p.len()]);
        }
    }
    if i < s.len() {
        assert(q[j as int] == s[i as int]);
        assert(q.skip(j as int + 1) =~= s.skip(i as int + 1));
    }
    grammar::lemma_run_is(q, ByteClass::StringBody, j);
    assert(acc + q.take(j as int) =~= (acc + p) + s.take(i as int));
}

proof fn lemma_scan_escape(c: char, e: Seq<u8>, s: Seq<u8>, acc: Seq<u8>, escaped: bool)
    requires
        grammar::escape(e + s) == Outcome::<char, ParseError>::value(e.len(), c),
        scan(s, acc + encode_scalar(c as u32), true).result is Ok,
    ensures
        scan((seq!['\\' as u8] + e) + s, acc, escaped) == scan(
            s,
            acc + encode_scalar(c as u32),
            true,
        ).behind(e.len() + 1),
{
    let enc = encode_scalar(c as u32);
    let q = (seq!['\\' as u8] + e) + s;
    grammar::lemma_run_is(q, ByteClass::StringBody, 0);
    let u = q.skip(1);
    assert(acc + q.take(0) =~= acc);
    assert(u =~= e + s);
    assert(u.skip(e.len() as int) =~= s);
    let i = grammar::run(s, ByteClass::StringBody);
    grammar::lemma_run(s, ByteClass::StringBody);
    assert(u.skip((e.len() + i + 1) as int) =~= s.skip(i as int + 1));
    assert(acc + (enc + s.take(i as int)) =~= (acc + enc) + s.take(i as int));
}

proof fn lemma_plain(c: char)
    requires
        c != '\\',
        c != '"',
    ensures
        forall|i: int|
            0 <= i < encode_scalar(c as u32).len() ==> ByteClass::StringBody.has(
                #[trigger] encode_scalar(c as u32)[i],
            ),
{
    lemma_encoding(c);
    assert(c as u32 != 34);
    assert(c as u32 != 92);
}

proof fn lemma_scan_piece(p: Piece, s: Seq<u8>, acc: Seq<u8>, escaped: bool)
    requires
        p.valid(),
        scan(s, acc + encode_scalar(p.c as u32), escaped || p.escape is Some).result is Ok,
    ensures
        scan(p.bytes() + s, acc, escaped) == scan(
            s,
            acc + encode_scalar(p.c as u32),
            escaped || p.escape is Some,
        ).behind(p.bytes().len()),
{
    match p.escape {
        None => {
            lemma_plain(p.c);
            lemma_scan_plain(encode_scalar(p.c as u32), s, acc, escaped);
        },
        Some(e) => {
            lemma_scan_escape(p.c, e, s, acc, escaped);
        },
    }
}

proof fn lemma_scan_pieces(pieces: Seq<Piece>, acc: Seq<u8>, escaped: bool, tail: Seq<u8>)
    requires
        valid_utf8(acc),
        forall|i: int| 0 <= i < pieces.len() ==> (#[trigger] pieces[i]).valid(),
    ensures
        scan(written_pieces(pieces) + seq!['"' as u8] + tail, acc, escaped) == Outcome::<
            StringValue,
            ParseError,
        >::value(
            written_pieces(pieces).len() + 1,
            StringValue {
                text: decode_utf8(acc + encode_utf8(text_of(pieces))),
                escaped: escaped || has_escapes(pieces),
            },
        ),
    decreases pieces.len(),
{
    let s = written_pieces(pieces) + seq!['"' as u8] + tail;
    let text = text_of(pieces);
    if pieces.len() == 0 {
        grammar::lemma_run_is(s, ByteClass::StringBody, 0);
        assert(acc + s.take(0) =~= acc);
        assert(acc + encode_utf8(text) =~= acc);
    } else {
        let p = pieces[0];
        let rest = pieces.drop_first();
        let enc = encode_scalar(p.c as u32);
        let after = written_pieces(rest) + seq!['"' as u8] + tail;
        lemma_encoding(p.c);
        valid_utf8_concat(acc, enc);
        assert(text.drop_first() =~= text_of(rest));
        assert(text[0] == p.c);
        assert((acc + enc) + encode_utf8(text_of(rest)) =~= acc + encode_utf8(text));
        assert(s =~= p.bytes() + after);
        assert forall|i: int| 0 <= i < rest.len() implies (#[trigger] rest[i]).valid() by {
            assert(rest[i] == pieces[i + 1]);
        }
        lemma_scan_pieces(rest, acc + enc, escaped || p.escape is Some, tail);
        lemma_scan_piece(p, after, acc, escaped);
    }
}

/// The encoding of a character: one to four bytes, which decode to it, and none of which
/// is the code of another character below 128.
proof fn lemma_encoding(c: char)
    ensures
        1 <= encode_scalar(c as u32).len() <= 4,
        valid_utf8(encode_scalar(c as u32)),
        decode_utf8(encode_scalar(c as u32)) == seq![c],
        forall|i: int|
            0 <= i < encode_scalar(c as u32).len() ==> (#[trigger] encode_scalar(c as u32)[i])
                >= 128 || encode_scalar(c as u32)[i] == c as u32,
{
    let v = c as u32;
    let one = seq![c];
    assert(one.drop_first() =~= Seq::<char>::empty());
    reveal_with_fuel(encode_utf8, 2);
    assert(encode_utf8(one) =~= encode_scalar(v));
    encode_utf8_valid_utf8(one);
    encode_utf8_decode_utf8(one);
    assert(v < 128 ==> (v & 0x7F) as u8 == v) by (bit_vector);
    assert(0xC0 | ((v >> 6) & 0x1F) as u8 >= 128) by (bit_vector);
    assert(0xE0 | ((v >> 12) & 0x0F) as u8 >= 128) by (bit_vector);
    assert(0xF0 | ((v >> 18) & 0x7) as u8 >= 128) by (bit_vector);
    assert(0x80 | (v & 0x3F) as u8 >= 128) by (bit_vector);
    assert(0x80 | ((v >> 6) & 0x3F) as u8 >= 128) by (bit_vector);
    assert(0x80 | ((v >> 12) & 0x3F) as u8 >= 128) by (bit_vector);
}

/// Whether that many bytes were taken, and gave this.
pub open spec fn gave<T>(o: Outcome<T, ParseError>, used: nat, v: T) -> bool {
    o.used == used && (o.result matches Ok(x) && x == v)
}

/// Whether that many bytes were taken, and the error is reported behind them.
pub open spec fn failed<T>(o: Outcome<T, ParseError>, used: nat, kind: ParseError) -> bool {
    o.used == used && (o.result matches Err(f) && f.kind == kind && f.at == used)
}

/// The character that a letter stands for behind a `\`.
pub open spec fn letter_escape(letter: u8) -> Option<u32> {
    if letter == 'n' as u8 {
        Some(0x0A)
    } else if letter == 'r' as u8 {
        Some(0x0D)
    } else if letter == 't' as u8 {
        Some(0x09)
    } else if letter == '\'' as u8 || letter == '"' as u8 || letter == '\\' as u8 {
        Some(letter as u32)
    } else {
        None
    }
}

/// A letter that stands for a character behind a `\` gives that character whatever follows,
/// and it alone is taken. Other than these, only `x` and `u` can stand there, and something
/// has to.
pub proof fn law_letter_escapes(letter: u8, tail: Seq<u8>)
    ensures
        match letter_escape(letter) {
            Some(code) => gave(grammar::escape(seq![letter] + tail), 1, code as char),
            None => letter != 'x' as u8 && letter != 'u' as u8 ==> failed(
                grammar::escape(seq![letter] + tail),
                1,
                ParseError::InvalidEscape("Unknown escape character"),
            ),
        },
        failed(grammar::escape(Seq::<u8>::empty()), 0, ParseError::Eof),
{
    reveal(grammar::escape);
    assert((seq![letter] + tail)[0] == letter);
}

/// Behind an `x`, two hexadecimal digits give the character of their number, whatever
/// follows. Nothing else may stand there.
pub proof fn law_two_digits(s: Seq<u8>)
    ensures
        ({
            let a = grammar::ascii_escape(s);
            let e = grammar::escape(seq!['x' as u8] + s);
            let no_digit = ParseError::InvalidEscape("Non-hex digit found");
            &&& s.len() >= 2 && alphabet::is_hex(s[0]) && alphabet::is_hex(s[1]) ==> {
                let n = alphabet::worth(s[0]) * 16 + alphabet::worth(s[1]);
                n < 256 && gave(a, 2, n as u8) && gave(e, 3, n as char)
            }
            &&& s.len() == 0 ==> failed(a, 0, ParseError::Eof) && failed(e, 1, ParseError::Eof)
            &&& s.len() > 0 && !alphabet::is_hex(s[0]) ==> failed(a, 1, no_digit) && failed(
                e,
                2,
                no_digit,
            )
            &&& s.len() == 1 && alphabet::is_hex(s[0]) ==> failed(a, 1, ParseError::Eof) && failed(
                e,
                2,
                ParseError::Eof,
            )
            &&& s.len() > 1 && alphabet::is_hex(s[0]) && !alphabet::is_hex(s[1]) ==> failed(
                a,
                2,
                no_digit,
            ) && failed(e, 3, no_digit)
        }),
{
    reveal(grammar::escape);
    let q = seq!['x' as u8] + s;
    assert(q[0] == 'x' as u8);
    assert(q.drop_first() =~= s);
}

/// Behind a `u`, one to six hexadecimal digits in braces give the character of their number,
/// whatever follows, if there is one. Nothing else may stand there.
pub proof fn law_digits_in_braces(digits: Seq<u8>, s: Seq<u8>)
    requires
        digits.len() <= 6,
        forall|i: int| 0 <= i < digits.len() ==> alphabet::is_hex(#[trigger] digits[i]),
        digits.len() == 6 || s.len() == 0 || !alphabet::is_hex(s[0]),
    ensures
        ({
            let e = grammar::escape(seq!['u' as u8, '{' as u8] + digits + s);
            let n = alphabet::positional(digits, 16);
            let d = digits.len();
            &&& s.len() == 0 ==> failed(e, d + 2, ParseError::Eof)
            &&& s.len() > 0 && s[0] != '}' as u8 && d < 6 ==> failed(
                e,
                d + 3,
                ParseError::InvalidEscape("Non-hex digit found"),
            )
            &&& s.len() > 0 && s[0] != '}' as u8 && d == 6 ==> failed(
                e,
                d + 3,
                ParseError::InvalidEscape("No } at the end"),
            )
            &&& s.len() > 0 && s[0] == '}' as u8 && d == 0 ==> failed(
                e,
                2,
                ParseError::InvalidEscape("Expected 1-6 digits, got 0 digits"),
            )
            &&& s.len() > 0 && s[0] == '}' as u8 && d > 0 ==> if n <= 0xD7FF || 0xE000 <= n
                <= 0x10FFFF {
                gave(e, d + 3, n as char)
            } else {
                failed(e, d + 3, ParseError::InvalidEscape("Not a valid char"))
            }
        }),
{
    reveal(grammar::escape);
    reveal(grammar::unicode_escape);
    let q = seq!['u' as u8, '{' as u8] + digits + s;
    let d = digits.len();
    let u = q.drop_first();
    let t = u.drop_first();
    assert(q[0] == 'u' as u8);
    assert(u[0] == '{' as u8);
    assert(t =~= digits + s);
    grammar::lemma_run(t, ByteClass::Digit);
    assert forall|i: int| 0 <= i < d implies ByteClass::Digit.has(#[trigger] t[i]) by {
        assert(t[i] == digits[i]);
        assert(alphabet::is_hex(digits[i]));
    }
    let r = grammar::run(t, ByteClass::Digit);
    if r < d {
        assert(ByteClass::Digit.has(t[r as int]));
    }
    if s.len() > 0 {
        assert(t[d as int] == s[0]);
    }
    if d < 6 {
        grammar::lemma_run_is(t, ByteClass::Digit, d);
    }
    assert(t.take(d as int) =~= digits);
    alphabet::law_digits_are_positional(digits, 16);
    lemma_six_digits(digits);
}

/// Behind a `u`, a brace has to stand.
pub proof fn law_brace_is_needed(s: Seq<u8>)
    requires
        s.len() == 0 || s[0] != '{' as u8,
    ensures
        s.len() == 0 ==> failed(grammar::escape(seq!['u' as u8] + s), 1, ParseError::Eof),
        s.len() > 0 ==> failed(
            grammar::escape(seq!['u' as u8] + s),
            2,
            ParseError::InvalidEscape("Missing {"),
        ),
{
    reveal(grammar::escape);
    reveal(grammar::unicode_escape);
    let q = seq!['u' as u8] + s;
    assert(q[0] == 'u' as u8);
    assert(q.drop_first() =~= s);
}

proof fn lemma_six_digits(digits: Seq<u8>)
    requires
        digits.len() <= 6,
        forall|i: int| 0 <= i < digits.len() ==> alphabet::is_hex(#[trigger] digits[i]),
    ensures
        num::digits_value(digits, 16) < 0x100_0000,
{
    lemma_bound(digits);
    vstd::arithmetic::power::lemma_pow_increases(16, digits.len(), 6);
    reveal_with_fuel(vstd::arithmetic::power::pow, 7);
}

proof fn lemma_bound(digits: Seq<u8>)
    requires
        forall|i: int| 0 <= i < digits.len() ==> alphabet::is_hex(#[trigger] digits[i]),
    ensures
        num::digits_value(digits, 16) < vstd::arithmetic::power::pow(16, digits.len()),
    decreases digits.len(),
{
    reveal(vstd::arithmetic::power::pow);
    if digits.len() > 0 {
        let d = digits.drop_last();
        assert forall|i: int| 0 <= i < d.len() implies alphabet::is_hex(#[trigger] d[i]) by {
            assert(d[i] == digits[i]);
        }
        lemma_bound(d);
        assert(alphabet::is_hex(digits.last()));
    }
}

/// What stands between single quotes has to be one character in UTF-8, of at most four
/// bytes, and no `\`.
pub proof fn law_quoted_bytes(body: Seq<u8>, tail: Seq<u8>)
    requires
        forall|i: int| 0 <= i < body.len() ==> #[trigger] body[i] != '\'' as u8,
        body.len() > 0 ==> body[0] != '\\' as u8,
    ensures
        ({
            let o = grammar::character(seq!['\'' as u8] + body + seq!['\'' as u8] + tail);
            if body.len() <= 4 && valid_utf8(body) && decode_utf8(body).len() == 1 {
                gave(o, body.len() + 2, decode_utf8(body)[0])
            } else if body.len() <= 4 && !valid_utf8(body) {
                o.used == 1 && (o.result matches Err(f) && f.at == 1 && (
                f.kind matches ParseError::Utf8Error(e) && longest_utf8(body, e.valid_up_to as int)))
            } else {
                failed(o, 1, ParseError::ExpectedChar)
            }
        }),
{
    let s = seq!['\'' as u8] + body + seq!['\'' as u8] + tail;
    let t = s.skip(1);
    let n = body.len();
    let window = if t.len() < 5 {
        t
    } else {
        t.take(5)
    };
    assert(s[0] == '\'' as u8);
    assert(s[1] == t[0]);
    assert forall|i: int| 0 <= i < n implies #[trigger] t[i] == body[i] by {}
    assert(t[n as int] == '\'' as u8);
    if n <= 4 {
        assert forall|i: int| 0 <= i < n implies ByteClass::CharBody.has(#[trigger] window[i]) by {
            assert(window[i] == t[i]);
            assert(body[i] != '\'' as u8);
        }
        assert(window[n as int] == t[n as int]);
        grammar::lemma_run_is(window, ByteClass::CharBody, n);
        assert(t.take(n as int) =~= body);
        if !valid_utf8(body) {
            law_utf8_errors(body);
        }
    } else {
        assert forall|i: int| 0 <= i < 5 implies ByteClass::CharBody.has(#[trigger] window[i]) by {
            assert(window[i] == t[i]);
            assert(body[i] != '\'' as u8);
        }
        grammar::lemma_run_is(window, ByteClass::CharBody, 5);
    }
}

/// A character has to be quoted on both sides: without a `'` in front nothing is read, and
/// one has to follow within five bytes.
pub proof fn law_quotes_are_needed(s: Seq<u8>)
    ensures
        s.len() == 0 || s[0] != '\'' as u8 ==> failed(
            grammar::character(s),
            0,
            ParseError::ExpectedChar,
        ),
        s.len() == 0 ==> failed(
            grammar::character(seq!['\'' as u8] + s),
            1,
            ParseError::Eof,
        ),
        s.len() > 0 && s[0] != '\\' as u8 && (forall|i: int|
            0 <= i < s.len() && i < 5 ==> #[trigger] s[i] != '\'' as u8) ==> failed(
            grammar::character(seq!['\'' as u8] + s),
            1,
            ParseError::ExpectedChar,
        ),
{
    let q = seq!['\'' as u8] + s;
    assert(q[0] == '\'' as u8);
    assert(q.skip(1) =~= s);
    if s.len() > 0 {
        assert(q[1] == s[0]);
        let window = if s.len() < 5 {
            s
        } else {
            s.take(5)
        };
        if forall|i: int| 0 <= i < s.len() && i < 5 ==> #[trigger] s[i] != '\'' as u8 {
            assert forall|i: int| 0 <= i < window.len() implies ByteClass::CharBody.has(
                #[trigger] window[i],
            ) by {
                assert(window[i] == s[i]);
            }
            grammar::lemma_run_is(window, ByteClass::CharBody, window.len());
        }
    }
}

/// In single quotes, an escape sequence gives its character if a `'` follows; if not, that
/// is missed behind it. A malformed one fails as it does.
pub proof fn law_quoted_escapes(s: Seq<u8>)
    ensures
        ({
            let o = grammar::character(seq!['\'' as u8, '\\' as u8] + s);
            let e = grammar::escape(s);
            match e.result {
                Ok(c) => if e.used < s.len() && s[e.used as int] == '\'' as u8 {
                    gave(o, e.used + 3, c)
                } else {
                    failed(o, e.used + 2, ParseError::ExpectedChar)
                },
                Err(f) => failed(o, e.used + 2, f.kind),
            }
        }),
{
    let q = seq!['\'' as u8, '\\' as u8] + s;
    let e = grammar::escape(s);
    grammar::lemma_escape(s);
    assert(q[0] == '\'' as u8);
    assert(q[1] == '\\' as u8);
    assert(q.skip(2) =~= s);
    if e.used < s.len() {
        assert(q[2 + e.used as int] == s[e.used as int]);
    }
}

/// Whether the first `k` bytes are UTF-8, and no longer beginning is.
pub open spec fn longest_utf8(bytes: Seq<u8>, k: int) -> bool {
    &&& 0 <= k <= bytes.len()
    &&& valid_utf8(bytes.take(k))
    &&& forall|j: int| k < j <= bytes.len() ==> !valid_utf8(#[trigger] bytes.take(j))
}

/// The error for bytes that are not UTF-8 tells the longest beginning that is.
pub proof fn law_utf8_errors(bytes: Seq<u8>)
    requires
        bytes.len() <= usize::MAX,
    ensures
        longest_utf8(bytes, text::utf8_error(bytes).valid_up_to as int),
{
    lemma_longest(bytes);
}

proof fn lemma_longest(bytes: Seq<u8>)
    ensures
        longest_utf8(bytes, text::utf8_prefix_len(bytes) as int),
    decreases bytes.len(),
{
    let n = bytes.len() as int;
    assert(bytes.take(n) =~= bytes);
    if valid_utf8(bytes) {
    } else if n == 0 {
        assert(valid_utf8(bytes));
    } else {
        let b = bytes.drop_last();
        lemma_longest(b);
        let k = text::utf8_prefix_len(b) as int;
        assert(b.take(k) =~= bytes.take(k));
        assert forall|j: int| k < j <= n implies !valid_utf8(#[trigger] bytes.take(j)) by {
            if j < n {
                assert(b.take(j) =~= bytes.take(j));
            }
        }
    }
}

/// A part of a string: an escape sequence, given without its `\`, for a character, and the
/// bytes up to the next one.
pub struct Part {
    pub escape: Seq<u8>,
    pub c: char,
    pub plain: Seq<u8>,
}

/// Whether bytes stand for themselves in a string.
pub open spec fn is_plain(bytes: Seq<u8>) -> bool {
    forall|i: int|
        0 <= i < bytes.len() ==> #[trigger] bytes[i] != '"' as u8 && bytes[i] != '\\' as u8
}

impl Part {
    /// Whether the escape sequence stands for the character, whatever follows, and the
    /// bytes for themselves.
    pub open spec fn valid(self) -> bool {
        &&& forall|tail: Seq<u8>|
            gave(#[trigger] grammar::escape(self.escape + tail), self.escape.len(), self.c)
        &&& is_plain(self.plain)
    }
}

/// The bytes that write some parts.
pub open spec fn written_parts(parts: Seq<Part>) -> Seq<u8>
    decreases parts.len(),
{
    if parts.len() == 0 {
        Seq::empty()
    } else {
        seq!['\\' as u8] + parts[0].escape + parts[0].plain + written_parts(parts.drop_first())
    }
}

/// The bytes that some parts stand for.
pub open spec fn meant_parts(parts: Seq<Part>) -> Seq<u8>
    decreases parts.len(),
{
    if parts.len() == 0 {
        Seq::empty()
    } else {
        encode_utf8(seq![parts[0].c]) + parts[0].plain + meant_parts(parts.drop_first())
    }
}

/// Whether bytes that a string stands for gave its text, or, if they are not UTF-8, an
/// error that is reported `at` bytes behind its beginning.
pub open spec fn string_gave(
    o: Outcome<StringValue, ParseError>,
    len: nat,
    meant: Seq<u8>,
    escaped: bool,
    at: nat,
) -> bool {
    if valid_utf8(meant) {
        o.used == len && (o.result matches Ok(v) && v.text == decode_utf8(meant) && v.escaped
            == escaped)
    } else {
        o.used == at && (o.result matches Err(f) && f.at == at && f.kind == ParseError::Utf8Error(
            text::utf8_error(meant),
        ))
    }
}

/// A string in double quotes stands for the bytes between them, with a character in place
/// of each escape sequence, in the order in which they are written. It ends at the first
/// `"` that belongs to no escape sequence; its text is taken from the input as it stands
/// exactly if there are none. If it does not end, or an escape sequence is malformed, that
/// is reported.
pub proof fn law_strings(plain: Seq<u8>, parts: Seq<Part>, s: Seq<u8>)
    requires
        is_plain(plain),
        forall|i: int| 0 <= i < parts.len() ==> (#[trigger] parts[i]).valid(),
    ensures
        ({
            let body = plain + written_parts(parts);
            let n = body.len();
            let closed = grammar::string(seq!['"' as u8] + body + (seq!['"' as u8] + s));
            let open = grammar::string(seq!['"' as u8] + body);
            let broken = grammar::string(seq!['"' as u8] + body + (seq!['\\' as u8] + s));
            &&& string_gave(
                closed,
                n + 2,
                plain + meant_parts(parts),
                parts.len() > 0,
                if parts.len() > 0 {
                    n + 2
                } else {
                    1
                },
            )
            &&& parts.len() == 0 ==> failed(open, 1, ParseError::ExpectedStringEnd)
            &&& parts.len() > 0 ==> failed(
                open,
                (n + 1 - parts.last().plain.len()) as nat,
                ParseError::Eof,
            )
            &&& grammar::escape(s).result matches Err(f) ==> failed(
                broken,
                n + 2 + grammar::escape(s).used,
                f.kind,
            )
        }),
{
    let body = plain + written_parts(parts);
    let (q, b) = (seq!['"' as u8], seq!['\\' as u8]);
    lemma_string_end(plain, parts, q + s);
    lemma_string_end(plain, parts, Seq::<u8>::empty());
    lemma_string_end(plain, parts, b + s);
    assert(q + body + Seq::<u8>::empty() =~= q + body);
    assert((b + s).drop_first() =~= s);
    grammar::lemma_escape(s);
}

/// A string has to start with a `"`.
pub proof fn law_double_quote_is_needed(s: Seq<u8>)
    requires
        s.len() == 0 || s[0] != '"' as u8,
    ensures
        failed(grammar::string(s), 0, ParseError::ExpectedString),
{
}

proof fn lemma_string_end(plain: Seq<u8>, parts: Seq<Part>, end: Seq<u8>)
    requires
        is_plain(plain),
        forall|i: int| 0 <= i < parts.len() ==> (#[trigger] parts[i]).valid(),
        end.len() == 0 || end[0] == '"' as u8 || end[0] == '\\' as u8,
    ensures
        ({
            let body = plain + written_parts(parts);
            let n = body.len();
            let meant = plain + meant_parts(parts);
            let o = grammar::string(seq!['"' as u8] + body + end);
            &&& end.len() > 0 && end[0] == '"' as u8 ==> string_gave(
                o,
                n + 2,
                meant,
                parts.len() > 0,
                if parts.len() > 0 {
                    n + 2
                } else {
                    1
                },
            )
            &&& end.len() == 0 && parts.len() == 0 ==> failed(o, 1, ParseError::ExpectedStringEnd)
            &&& end.len() == 0 && parts.len() > 0 ==> failed(
                o,
                (n + 1 - parts.last().plain.len()) as nat,
                ParseError::Eof,
            )
            &&& end.len() > 0 && end[0] == '\\' as u8 ==> o == grammar::string_rest(
                end.drop_first(),
                meant,
            ).behind(n + 2)
        }),
{
    let w = written_parts(parts);
    let s = seq!['"' as u8] + (plain + w) + end;
    let t = s.drop_first();
    let k = plain.len();
    let after = w + end;
    assert(s[0] == '"' as u8);
    assert(t =~= plain + after);
    if parts.len() > 0 {
        assert(after[0] == '\\' as u8);
    } else {
        assert(after =~= end);
    }
    lemma_plain_run(plain, after);
    assert(t.take(k as int) =~= plain);
    if after.len() > 0 {
        assert(t.skip(k as int + 1) =~= after.skip(1));
    }
    if parts.len() == 0 {
        assert(plain + meant_parts(parts) =~= plain);
        if end.len() > 0 {
            assert(t[k as int] == end[0]);
            assert(end.skip(1) =~= end.drop_first());
        }
    } else {
        assert(t[k as int] == '\\' as u8);
        lemma_rest_end(parts, plain, end);
    }
}

/// The bytes of a string up to the first `\` or `"`.
proof fn lemma_plain_run(plain: Seq<u8>, after: Seq<u8>)
    requires
        is_plain(plain),
        after.len() == 0 || after[0] == '"' as u8 || after[0] == '\\' as u8,
    ensures
        grammar::run(plain + after, ByteClass::StringBody) == plain.len(),
{
    let q = plain + after;
    assert forall|i: int| 0 <= i < plain.len() implies ByteClass::StringBody.has(
        #[trigger] q[i],
    ) by {
        assert(q[i] == plain[i]);
    }
    if after.len() > 0 {
        assert(q[plain.len() as int] == after[0]);
    }
    grammar::lemma_run_is(q, ByteClass::StringBody, plain.len());
}

proof fn lemma_rest_end(parts: Seq<Part>, acc: Seq<u8>, end: Seq<u8>)
    requires
        parts.len() > 0,
        forall|i: int| 0 <= i < parts.len() ==> (#[trigger] parts[i]).valid(),
        end.len() == 0 || end[0] == '"' as u8 || end[0] == '\\' as u8,
    ensures
        ({
            let w = written_parts(parts);
            let meant = acc + meant_parts(parts);
            let o = grammar::string_rest((w + end).skip(1), acc);
            &&& w.len() > parts.last().plain.len()
            &&& end.len() > 0 && end[0] == '"' as u8 ==> string_gave(o, w.len(), meant, true, w.len())
            &&& end.len() == 0 ==> failed(
                o,
                (w.len() - 1 - parts.last().plain.len()) as nat,
                ParseError::Eof,
            )
            &&& end.len() > 0 && end[0] == '\\' as u8 ==> o == grammar::string_rest(
                end.drop_first(),
                meant,
            ).behind(w.len())
        }),
    decreases parts.len(),
{
    let p = parts[0];
    let rest = parts.drop_first();
    let w = written_parts(parts);
    let v = written_parts(rest);
    let after = v + end;
    let s = (w + end).skip(1);
    assert(p.valid());
    lemma_first_part(parts, acc, end);
    if rest.len() > 0 {
        assert(after[0] == '\\' as u8);
    } else {
        assert(after =~= end);
    }
    lemma_part(p, after);
    let bytes = encode_utf8(seq![p.c]) + p.plain;
    let all = acc + bytes;
    let m = meant_parts(rest);
    let used = p.escape.len() + p.plain.len() + 1;
    if rest.len() > 0 {
        assert forall|j: int| 0 <= j < rest.len() implies (#[trigger] rest[j]).valid() by {
            assert(rest[j] == parts[j + 1]);
        }
        lemma_rest_end(rest, all, end);
        assert(rest.last() == parts.last());
        assert(grammar::string_rest(s, acc) == grammar::string_rest(after.skip(1), all).behind(
            used,
        ));
    } else {
        assert(all + m =~= all);
        if end.len() > 0 {
            assert(end.skip(1) =~= end.drop_first());
        }
    }
}

/// The first of some parts, and the others.
proof fn lemma_first_part(parts: Seq<Part>, acc: Seq<u8>, end: Seq<u8>)
    requires
        parts.len() > 0,
    ensures
        ({
            let p = parts[0];
            let rest = parts.drop_first();
            let w = written_parts(parts);
            let after = written_parts(rest) + end;
            let used = p.escape.len() + p.plain.len() + 1;
            &&& (w + end).skip(1) == p.escape + (p.plain + after)
            &&& after.len() > 0 ==> (w + end).skip(1).skip(used as int) == after.skip(1)
            &&& w.len() == used + written_parts(rest).len()
            &&& (acc + (encode_utf8(seq![p.c]) + p.plain)) + meant_parts(rest) == acc
                + meant_parts(parts)
        }),
{
    let p = parts[0];
    let rest = parts.drop_first();
    let w = written_parts(parts);
    let after = written_parts(rest) + end;
    assert((w + end).skip(1) =~= p.escape + (p.plain + after));
    if after.len() > 0 {
        assert((w + end).skip(1).skip((p.escape.len() + p.plain.len() + 1) as int) =~= after.skip(
            1,
        ));
    }
    assert((acc + (encode_utf8(seq![p.c]) + p.plain)) + meant_parts(rest) =~= acc + meant_parts(
        parts,
    ));
}

/// A part is read as its character and the bytes behind it.
proof fn lemma_part(p: Part, after: Seq<u8>)
    requires
        p.valid(),
        after.len() == 0 || after[0] == '"' as u8 || after[0] == '\\' as u8,
    ensures
        grammar::string_piece(p.escape + (p.plain + after)) == if after.len() == 0 {
            Outcome::<(Seq<u8>, bool), ParseError>::fault(p.escape.len(), ParseError::Eof)
        } else {
            Outcome::<(Seq<u8>, bool), ParseError>::value(
                p.escape.len() + p.plain.len() + 1,
                (encode_utf8(seq![p.c]) + p.plain, after[0] == '\\' as u8),
            )
        },
{
    let t = p.plain + after;
    let s = p.escape + t;
    let i = p.plain.len();
    assert(gave(grammar::escape(p.escape + t), p.escape.len(), p.c));
    assert(s.skip(p.escape.len() as int) =~= t);
    lemma_plain_run(p.plain, after);
    lemma_one(p.c);
    assert(t.take(i as int) =~= p.plain);
    if after.len() > 0 {
        assert(t[i as int] == after[0]);
    }
}

proof fn lemma_one(c: char)
    ensures
        encode_utf8(seq![c]) == encode_scalar(c as u32),
{
    let one = seq![c];
    assert(one.drop_first() =~= Seq::<char>::empty());
    reveal_with_fuel(encode_utf8, 2);
    assert(encode_utf8(one) =~= encode_scalar(c as u32));
}

/// The bytes of a text are UTF-8 and decode to it.
pub proof fn law_bytes_of_texts(s: &str)
    ensures
        valid_utf8(text::bytes_of(s)),
        decode_utf8(text::bytes_of(s)) == s@,
{
    encode_utf8_valid_utf8(s@);
    encode_utf8_decode_utf8(s@);
}

} // verus!
