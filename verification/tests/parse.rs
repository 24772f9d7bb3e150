use ron_parse::error::{Error, ParseError, Utf8Error};
use ron_parse::extensions::{IMPLICIT_SOME, UNWRAP_NEWTYPES};
use ron_parse::parse::{Bytes, Extensions, Num, ParsedStr, Position};

fn at(line: usize, col: usize) -> Position {
    Position { line, col }
}

fn failure<T>(kind: ParseError, line: usize, col: usize) -> Result<T, Error> {
    Err(Error::Parser(kind, at(line, col)))
}

fn parser(input: &[u8]) -> Bytes<'_> {
    Bytes::new(input).unwrap()
}

fn text(s: Result<ParsedStr<'_>, Error>) -> (String, bool) {
    match s.unwrap() {
        ParsedStr::Allocated(s) => (s, true),
        ParsedStr::Slice(s) => (s.to_owned(), false),
    }
}

fn string_error(input: &[u8]) -> Error {
    match parser(input).string() {
        Err(e) => e,
        Ok(s) => panic!("{:?}", s),
    }
}

fn position_of(b: &Bytes<'_>) -> Position {
    let Error::Parser(_, position) = b.error(ParseError::Eof);
    position
}

#[test]
fn decode_x10() {
    let mut bytes = Bytes::new(b"10").unwrap();
    assert_eq!(bytes.decode_ascii_escape(), Ok(0x10));
}

#[test]
fn ascii_escape_digits() {
    assert_eq!(parser(b"fF").decode_ascii_escape(), Ok(0xff));
    assert_eq!(parser(b"0a7").decode_ascii_escape(), Ok(0x0a));
    assert_eq!(parser(b"").decode_ascii_escape(), failure(ParseError::Eof, 1, 1));
    assert_eq!(parser(b"7").decode_ascii_escape(), failure(ParseError::Eof, 1, 2));
    assert_eq!(
        parser(b"g0").decode_ascii_escape(),
        failure(ParseError::InvalidEscape("Non-hex digit found"), 1, 2)
    );
    assert_eq!(
        parser(b"0g").decode_ascii_escape(),
        failure(ParseError::InvalidEscape("Non-hex digit found"), 1, 3)
    );
}

#[test]
fn advance_and_positions() {
    let mut b = parser(b"ab\ncd\n\ne");
    assert_eq!(position_of(&b), at(1, 1));
    assert_eq!(b.advance(2), Ok(()));
    assert_eq!(position_of(&b), at(1, 3));
    assert_eq!(b.advance_single(), Ok(()));
    assert_eq!(position_of(&b), at(2, 1));
    assert_eq!(b.advance(4), Ok(()));
    assert_eq!(position_of(&b), at(4, 1));
    assert_eq!(b.bytes(), b"e");
    assert_eq!(b.advance(3), failure(ParseError::Eof, 4, 2));
    assert_eq!(b.bytes(), b"");
    assert_eq!(b.advance_single(), failure(ParseError::Eof, 4, 2));
    assert_eq!(b.advance(0), Ok(()));
}

#[test]
fn advances_add_up() {
    let input = b"x\nyz\n\nw";
    for m in 0..4 {
        for n in 0..4 {
            let mut one = parser(input);
            let mut two = parser(input);
            assert_eq!(one.advance(m + n), Ok(()));
            assert_eq!(two.advance(m), Ok(()));
            assert_eq!(two.advance(n), Ok(()));
            assert_eq!(one.bytes(), two.bytes());
            assert_eq!(position_of(&one), position_of(&two));
        }
    }
}

#[test]
fn line_and_column_count() {
    let input = b"a\nbb\nccc";
    let mut b = parser(input);
    for i in 0..input.len() {
        let line = 1 + input[..i].iter().filter(|&&c| c == b'\n').count();
        let col = match input[..i].iter().rposition(|&c| c == b'\n') {
            Some(k) => i - k,
            None => i + 1,
        };
        assert_eq!(position_of(&b), at(line, col));
        assert_eq!(b.eat_byte(), Ok(input[i]));
    }
}

#[test]
fn position_text() {
    assert_eq!(at(1, 1).to_string(), "1:1");
    assert_eq!(at(12, 340).to_string(), "12:340");
    assert_eq!(at(0, 1234567890).to_string(), "0:1234567890");
    assert_eq!(at(usize::MAX, 9).to_string(), format!("{}:9", usize::MAX));
}

#[test]
fn booleans() {
    let mut b = parser(b"true,false");
    assert_eq!(b.bool(), Ok(true));
    assert!(b.comma());
    assert_eq!(b.bool(), Ok(false));
    assert_eq!(b.bytes(), b"");
    let mut b = parser(b"trueish");
    assert_eq!(b.bool(), Ok(true));
    assert_eq!(b.bytes(), b"ish");
    let mut b = parser(b"tru");
    assert_eq!(b.bool(), failure(ParseError::ExpectedBoolean, 1, 1));
    assert_eq!(b.bytes(), b"tru");
}

#[test]
fn bytes_one_by_one() {
    let mut b = parser(b"a");
    assert_eq!(b.peek(), Some(b'a'));
    assert_eq!(b.peek_or_eof(), Ok(b'a'));
    assert_eq!(b.eat_byte(), Ok(b'a'));
    assert_eq!(b.peek(), None);
    assert_eq!(b.peek_or_eof(), failure(ParseError::Eof, 1, 2));
    assert_eq!(b.eat_byte(), failure(ParseError::Eof, 1, 2));
    assert_eq!(b.err::<u8>(ParseError::ExpectedComma), failure(ParseError::ExpectedComma, 1, 2));
    assert_eq!(b.error(ParseError::Eof), Error::Parser(ParseError::Eof, at(1, 2)));
}

#[test]
fn expected_bytes() {
    let mut b = parser(b"ab");
    assert_eq!(b.expect_byte(b'a', ParseError::ExpectedComma), Ok(()));
    assert_eq!(
        b.expect_byte(b'a', ParseError::ExpectedComma),
        failure(ParseError::ExpectedComma, 1, 3)
    );
    assert_eq!(b.bytes(), b"");
    assert_eq!(b.expect_byte(b'a', ParseError::ExpectedComma), failure(ParseError::Eof, 1, 3));
}

#[test]
fn blanks_and_comments() {
    let mut b = parser(b"x \t\r\n // one\n//two\n  / y");
    assert_eq!(b.eat_byte(), Ok(b'x'));
    b.skip_ws();
    assert_eq!(b.bytes(), b"/ y");
    assert_eq!(position_of(&b), at(4, 3));
    b.skip_ws();
    assert_eq!(b.bytes(), b"/ y");
    let mut b = parser(b"x// to the end");
    assert_eq!(b.eat_byte(), Ok(b'x'));
    b.skip_ws();
    assert_eq!(b.bytes(), b"");
    assert_eq!(position_of(&b), at(1, 15));
}

#[test]
fn commas() {
    let mut b = parser(b"x , // c\n y");
    assert_eq!(b.eat_byte(), Ok(b'x'));
    assert!(b.comma());
    assert_eq!(b.bytes(), b"y");
    let mut b = parser(b"x  y");
    assert_eq!(b.eat_byte(), Ok(b'x'));
    assert!(!b.comma());
    assert_eq!(b.bytes(), b"y");
    assert!(!parser(b"").comma());
}

#[test]
fn tokens_and_words() {
    let mut b = parser(b"Some(None");
    assert!(b.check_ident("Some"));
    assert!(!b.check_ident("So"));
    assert!(!b.consume_ident("Som"));
    assert_eq!(b.bytes(), b"Some(None");
    assert!(b.consume_ident("Some"));
    assert!(b.consume("("));
    assert!(!b.consume("Nones"));
    assert!(b.check_ident("None"));
    assert!(b.consume("No"));
    assert_eq!(b.bytes(), b"ne");
    assert!(b.consume(""));
    assert_eq!(b.bytes(), b"ne");
}

#[test]
fn identifiers() {
    let mut b = parser(b"_ab9-c");
    assert_eq!(b.identifier(), Ok(&b"_ab9"[..]));
    assert_eq!(b.bytes(), b"-c");
    assert_eq!(b.identifier(), failure(ParseError::ExpectedIdentifier, 1, 5));
    assert_eq!(parser(b"9a").identifier(), failure(ParseError::ExpectedIdentifier, 1, 1));
    assert_eq!(parser(b"").identifier(), failure(ParseError::Eof, 1, 1));
    assert_eq!(parser(b"Zz").identifier(), Ok(&b"Zz"[..]));
}

#[test]
fn identifier_is_the_word_that_stands_there() {
    for input in ["ab", "ab cd", "ab_c", "a", "ab9", "ab-"] {
        let ident = parser(input.as_bytes()).identifier() == Ok(&b"ab"[..]);
        assert_eq!(parser(input.as_bytes()).check_ident("ab"), ident);
    }
}

#[test]
fn counting_allowed_bytes() {
    let b = parser(b"aabbc");
    assert_eq!(b.next_bytes_contained_in(b"ab"), 4);
    assert_eq!(b.next_bytes_contained_in(b"cba"), 5);
    assert_eq!(b.next_bytes_contained_in(b"b"), 0);
    assert_eq!(b.next_bytes_contained_in(b""), 0);
}

#[test]
fn unsigned_integers() {
    let mut b = parser(b"255,0x45A,0b101,0o17,0");
    assert_eq!(b.unsigned_integer::<u8>(), Ok(255));
    assert!(b.comma());
    assert_eq!(b.unsigned_integer::<u16>(), Ok(0x45a));
    assert!(b.comma());
    assert_eq!(b.unsigned_integer::<u32>(), Ok(5));
    assert!(b.comma());
    assert_eq!(b.unsigned_integer::<u64>(), Ok(15));
    assert!(b.comma());
    assert_eq!(b.unsigned_integer::<i8>(), Ok(0));
    assert_eq!(b.bytes(), b"");
    assert_eq!(parser(b"18446744073709551615").unsigned_integer::<u64>(), Ok(u64::MAX));
    assert_eq!(parser(b"0007").unsigned_integer::<u8>(), Ok(7));
}

#[test]
fn unsigned_integer_errors() {
    let mut b = parser(b"256 ");
    assert_eq!(b.unsigned_integer::<u8>(), failure(ParseError::ExpectedInteger, 1, 1));
    assert_eq!(b.bytes(), b" ");
    let mut b = parser(b"0x;");
    assert_eq!(b.unsigned_integer::<u8>(), failure(ParseError::ExpectedInteger, 1, 3));
    assert_eq!(b.bytes(), b";");
    let mut b = parser(b"0b12");
    assert_eq!(b.unsigned_integer::<u8>(), failure(ParseError::ExpectedInteger, 1, 3));
    assert_eq!(b.bytes(), b"");
    let mut b = parser(b"12ab;");
    assert_eq!(b.unsigned_integer::<u64>(), failure(ParseError::ExpectedInteger, 1, 1));
    assert_eq!(b.bytes(), b";");
    assert_eq!(parser(b"+1").unsigned_integer::<u8>(), failure(ParseError::ExpectedInteger, 1, 1));
    assert_eq!(parser(b"").unsigned_integer::<u8>(), failure(ParseError::ExpectedInteger, 1, 1));
    assert_eq!(
        parser(b"18446744073709551616").unsigned_integer::<u64>(),
        failure(ParseError::ExpectedInteger, 1, 1)
    );
}

#[test]
fn signed_integers() {
    assert_eq!(parser(b"-127").signed_integer::<i8>(), Ok(-127));
    assert_eq!(parser(b"+127").signed_integer::<i8>(), Ok(127));
    assert_eq!(parser(b"127").signed_integer::<i8>(), Ok(127));
    assert_eq!(parser(b"-0x7fff").signed_integer::<i16>(), Ok(-0x7fff));
    assert_eq!(parser(b"-0").signed_integer::<i32>(), Ok(0));
    assert_eq!(parser(b"-9223372036854775807").signed_integer::<i64>(), Ok(-i64::MAX));
    assert_eq!(parser(b"").signed_integer::<i64>(), failure(ParseError::Eof, 1, 1));
    assert_eq!(parser(b"-").signed_integer::<i64>(), failure(ParseError::ExpectedInteger, 1, 2));
    assert_eq!(parser(b"--1").signed_integer::<i64>(), failure(ParseError::ExpectedInteger, 1, 2));
    let mut b = parser(b"-128,");
    assert_eq!(b.signed_integer::<i8>(), failure(ParseError::ExpectedInteger, 1, 2));
    assert_eq!(b.bytes(), b",");
}

#[test]
fn decimal_round_trip() {
    for n in [0u64, 1, 9, 10, 255, 256, 65535, 1 << 32, u64::MAX] {
        let written = format!("{},", n);
        let mut b = parser(written.as_bytes());
        assert_eq!(b.unsigned_integer::<u64>(), Ok(n));
        assert_eq!(b.bytes(), b",");
    }
    for n in [0i64, 7, -7, i64::MAX, -i64::MAX] {
        let written = format!("{:+}", n);
        assert_eq!(parser(written.as_bytes()).signed_integer::<i64>(), Ok(n));
    }
}

#[test]
fn numbers_from_texts() {
    assert_eq!(<u8 as Num>::from_str("ff", 16), Ok(255));
    assert_eq!(<u8 as Num>::from_str("+ff", 16), Ok(255));
    assert_eq!(<u8 as Num>::from_str("-0", 10), Err(()));
    assert_eq!(<u8 as Num>::from_str("", 10), Err(()));
    assert_eq!(<u8 as Num>::from_str("+", 10), Err(()));
    assert_eq!(<i8 as Num>::from_str("-128", 10), Ok(-128));
    assert_eq!(<i8 as Num>::from_str("-129", 10), Err(()));
    assert_eq!(<i8 as Num>::from_str("128", 10), Err(()));
    assert_eq!(<i8 as Num>::from_str("-", 10), Err(()));
    assert_eq!(<i64 as Num>::from_str("-9223372036854775808", 10), Ok(i64::MIN));
    assert_eq!(<u64 as Num>::from_str("zz", 36), Ok(35 * 36 + 35));
    assert_eq!(<u32 as Num>::from_str("1_0", 10), Err(()));
    assert_eq!(<u16 as Num>::from_str("2", 2), Err(()));
    assert_eq!(<i32 as Num>::from_str("\u{661}", 10), Err(()));
    assert_eq!(<i16 as Num>::from_str(" 1", 10), Err(()));
    assert_eq!(<u8 as Num>::from_str("00000000000000000000000000000000001", 10), Ok(1));
    assert_eq!(<u8 as Num>::from_str("99999999999999999999999999999999999", 10), Err(()));
}

#[test]
fn numbers_agree_with_std() {
    for s in ["", "+", "-", "0", "-0", "+0", "7f", "-80", "80", "zZ", "1 ", "--1", "+-1", "12345"] {
        for radix in [2u32, 8, 10, 16, 36] {
            assert_eq!(<u8 as Num>::from_str(s, radix), u8::from_str_radix(s, radix).map_err(|_| ()));
            assert_eq!(<i8 as Num>::from_str(s, radix), i8::from_str_radix(s, radix).map_err(|_| ()));
            assert_eq!(<i64 as Num>::from_str(s, radix), i64::from_str_radix(s, radix).map_err(|_| ()));
        }
    }
}

#[test]
fn floats() {
    let mut b = parser(b"-1.5e3,");
    assert_eq!(b.float(|s: &str| s.parse::<f64>()), Ok(-1500.0));
    assert_eq!(b.bytes(), b",");
    let mut b = parser(b"x\n1.2.3;");
    assert_eq!(b.advance(2), Ok(()));
    assert_eq!(b.float(|s: &str| s.parse::<f32>()), failure(ParseError::ExpectedFloat, 2, 1));
    assert_eq!(b.bytes(), b";");
    assert_eq!(
        parser(b"").float(|s: &str| s.parse::<f32>()),
        failure(ParseError::ExpectedFloat, 1, 1)
    );
    let mut seen = String::new();
    let mut b = parser(b"12e+5Eabc");
    assert_eq!(
        b.float(|s: &str| {
            seen = s.to_owned();
            Ok::<u8, ()>(1)
        }),
        Ok(1)
    );
    assert_eq!(seen, "12e+5E");
}

#[test]
fn characters() {
    assert_eq!(parser(b"'a'").char(), Ok('a'));
    assert_eq!(parser(b"'\"'").char(), Ok('"'));
    assert_eq!(parser("'\u{e9}'".as_bytes()).char(), Ok('\u{e9}'));
    assert_eq!(parser("'\u{20ac}'".as_bytes()).char(), Ok('\u{20ac}'));
    assert_eq!(parser("'\u{1f600}'".as_bytes()).char(), Ok('\u{1f600}'));
    assert_eq!(parser(br"'\''").char(), Ok('\''));
    assert_eq!(parser(br"'\\'").char(), Ok('\\'));
    assert_eq!(parser(br"'\n'").char(), Ok('\n'));
    assert_eq!(parser(br"'\r'").char(), Ok('\r'));
    assert_eq!(parser(br"'\t'").char(), Ok('\t'));
    assert_eq!(parser(b"'\\\"'").char(), Ok('"'));
    assert_eq!(parser(br"'\xe9'").char(), Ok('\u{e9}'));
    assert_eq!(parser(br"'\u{1F600}'").char(), Ok('\u{1f600}'));
    let mut b = parser(b"'a',");
    assert_eq!(b.char(), Ok('a'));
    assert_eq!(b.bytes(), b",");
}

#[test]
fn character_errors() {
    assert_eq!(parser(b"a").char(), failure(ParseError::ExpectedChar, 1, 1));
    assert_eq!(parser(b"").char(), failure(ParseError::ExpectedChar, 1, 1));
    assert_eq!(parser(b"'").char(), failure(ParseError::Eof, 1, 2));
    assert_eq!(parser(b"''").char(), failure(ParseError::ExpectedChar, 1, 2));
    assert_eq!(parser(b"'ab'").char(), failure(ParseError::ExpectedChar, 1, 2));
    assert_eq!(parser(b"'a").char(), failure(ParseError::ExpectedChar, 1, 2));
    assert_eq!(parser(b"'abcde'").char(), failure(ParseError::ExpectedChar, 1, 2));
    assert_eq!(
        parser(b"'a\xff'").char(),
        failure(ParseError::Utf8Error(Utf8Error { valid_up_to: 1 }), 1, 2)
    );
    assert_eq!(
        parser(b"'\xe2\x82'").char(),
        failure(ParseError::Utf8Error(Utf8Error { valid_up_to: 0 }), 1, 2)
    );
    assert_eq!(parser(br"'\na'").char(), failure(ParseError::ExpectedChar, 1, 4));
    assert_eq!(
        parser(br"'\q'").char(),
        failure(ParseError::InvalidEscape("Unknown escape character"), 1, 4)
    );
}

#[test]
fn unicode_escapes() {
    let invalid = ParseError::InvalidEscape;
    assert_eq!(parser(br"'\u{0}'").char(), Ok('\0'));
    assert_eq!(parser(br"'\u{10FFFF}'").char(), Ok('\u{10ffff}'));
    assert_eq!(parser(br"'\u{00e9}'").char(), Ok('\u{e9}'));
    assert_eq!(parser(br"'\u41'").char(), failure(invalid("Missing {"), 1, 5));
    assert_eq!(
        parser(br"'\u{}'").char(),
        failure(invalid("Expected 1-6 digits, got 0 digits"), 1, 5)
    );
    assert_eq!(parser(br"'\u{g}'").char(), failure(invalid("Non-hex digit found"), 1, 6));
    assert_eq!(parser(br"'\u{1234567}'").char(), failure(invalid("No } at the end"), 1, 12));
    assert_eq!(parser(br"'\u{d800}'").char(), failure(invalid("Not a valid char"), 1, 10));
    assert_eq!(parser(br"'\u{110000}'").char(), failure(invalid("Not a valid char"), 1, 12));
    assert_eq!(parser(br"'\u").char(), failure(ParseError::Eof, 1, 4));
    assert_eq!(parser(br"'\u{").char(), failure(ParseError::Eof, 1, 5));
    assert_eq!(parser(br"'\u{12").char(), failure(ParseError::Eof, 1, 7));
    assert_eq!(parser(br"'\u{123456").char(), failure(ParseError::Eof, 1, 11));
    assert_eq!(parser(br"'\").char(), failure(ParseError::Eof, 1, 3));
}

#[test]
fn character_round_trip() {
    for c in ['a', '\'', '"', '\\', '\n', '\u{7f}', '\u{80}', '\u{7ff}', '\u{800}', '\u{ffff}', '\u{10000}'] {
        let written = match c {
            '\'' | '\\' => format!("'\\{}'.", c),
            _ => format!("'{}'.", c),
        };
        let mut b = parser(written.as_bytes());
        assert_eq!(b.char(), Ok(c));
        assert_eq!(b.bytes(), b".");
        let numbered = format!("'\\u{{{:x}}}'", c as u32);
        assert_eq!(parser(numbered.as_bytes()).char(), Ok(c));
    }
}

#[test]
fn strings() {
    let mut b = parser(b"\"plain\" rest");
    assert_eq!(text(b.string()), ("plain".to_owned(), false));
    assert_eq!(b.bytes(), b" rest");
    assert_eq!(text(parser(b"\"\"").string()), (String::new(), false));
    assert_eq!(
        text(parser("\"h\u{e9}\u{20ac}\u{1f600}\"".as_bytes()).string()),
        ("h\u{e9}\u{20ac}\u{1f600}".to_owned(), false)
    );
    let mut b = parser(b"\"a\\nb\\\"c\\\\\\x41\\u{e9}\\u{20ac}\\u{1f600}\\'\\t\\r.\"!");
    assert_eq!(
        text(b.string()),
        ("a\nb\"c\\A\u{e9}\u{20ac}\u{1f600}'\t\r.".to_owned(), true)
    );
    assert_eq!(b.bytes(), b"!");
    let mut b = parser(b"\"two\nlines\";");
    assert_eq!(text(b.string()), ("two\nlines".to_owned(), false));
    assert_eq!(position_of(&b), at(2, 7));
}

#[test]
fn string_errors() {
    let parser_error = |kind, line, col| Error::Parser(kind, at(line, col));
    assert_eq!(string_error(b"x"), parser_error(ParseError::ExpectedString, 1, 1));
    assert_eq!(string_error(b""), parser_error(ParseError::ExpectedString, 1, 1));
    assert_eq!(string_error(b"\"abc"), parser_error(ParseError::ExpectedStringEnd, 1, 2));
    assert_eq!(string_error(b"\"a\\nbc"), parser_error(ParseError::Eof, 1, 5));
    assert_eq!(string_error(b"\"a\\"), parser_error(ParseError::Eof, 1, 4));
    assert_eq!(
        string_error(b"\"a\\q\""),
        parser_error(ParseError::InvalidEscape("Unknown escape character"), 1, 5)
    );
    assert_eq!(
        string_error(b"\"ab\xc3(\""),
        parser_error(ParseError::Utf8Error(Utf8Error { valid_up_to: 2 }), 1, 2)
    );
    assert_eq!(
        string_error(b"\"a\\n\xff\""),
        parser_error(ParseError::Utf8Error(Utf8Error { valid_up_to: 2 }), 1, 7)
    );
}

#[test]
fn string_round_trip() {
    for s in ["", "a", "\"", "\\", "\\\"", "a\"b\\c", "\u{e9}\"\u{1f600}", "no escapes", "\n\t'"] {
        let written = format!("\"{}\"#", s.replace('\\', "\\\\").replace('"', "\\\""));
        let mut b = parser(written.as_bytes());
        let escaped = s.contains('"') || s.contains('\\');
        assert_eq!(text(b.string()), (s.to_owned(), escaped));
        assert_eq!(b.bytes(), b"#");
    }
}

#[test]
fn attributes() {
    let b = parser(b"#![enable(unwrap_newtypes)]\n(x)");
    assert_eq!(b.exts, Extensions { bits: UNWRAP_NEWTYPES });
    assert_eq!(b.exts(), b.exts);
    assert_eq!(b.bytes(), b"(x)");
    assert_eq!(position_of(&b), at(2, 1));
    let b = parser(b" // c\n # ! [ enable ( implicit_some , unwrap_newtypes , ) ] \n x");
    assert_eq!(b.exts, Extensions { bits: UNWRAP_NEWTYPES | IMPLICIT_SOME });
    assert_eq!(b.bytes(), b"x");
    let b = parser(b"#![enable(implicit_some)]#![enable(unwrap_newtypes,unwrap_newtypes)]");
    assert_eq!(b.exts, Extensions { bits: UNWRAP_NEWTYPES | IMPLICIT_SOME });
    assert_eq!(b.bytes(), b"");
    let b = parser(b"  \n(x)");
    assert!(b.exts.is_empty());
    assert_eq!(b.bytes(), b"(x)");
    assert_eq!(position_of(&b), at(2, 1));
}

fn header_error(input: &[u8]) -> Error {
    match Bytes::new(input) {
        Err(e) => e,
        Ok(b) => panic!("{:?}", b),
    }
}

#[test]
fn attribute_errors() {
    let parser_error = |kind, line, col| Error::Parser(kind, at(line, col));
    assert_eq!(header_error(b"#[enable(x)]"), parser_error(ParseError::ExpectedAttribute, 1, 2));
    assert_eq!(
        header_error(b"#![disable(x)]"),
        parser_error(ParseError::ExpectedAttribute, 1, 4)
    );
    assert_eq!(
        header_error(b"#![enable(no_such)]"),
        parser_error(ParseError::NoSuchExtension("no_such".to_owned()), 1, 18)
    );
    assert_eq!(
        header_error(b"#![enable(implicit_some unwrap_newtypes)]"),
        parser_error(ParseError::ExpectedComma, 1, 25)
    );
    assert_eq!(header_error(b"#![enable()]"), parser_error(ParseError::ExpectedIdentifier, 1, 11));
    assert_eq!(header_error(b"#![enable("), parser_error(ParseError::Eof, 1, 11));
    assert_eq!(
        header_error(b"#![enable(implicit_some,1)]"),
        parser_error(ParseError::ExpectedIdentifier, 1, 25)
    );
    assert_eq!(
        header_error(b"#![enable(implicit_some]"),
        parser_error(ParseError::ExpectedAttributeEnd, 1, 24)
    );
    assert_eq!(
        header_error(b"#![enable(implicit_some)"),
        parser_error(ParseError::ExpectedAttributeEnd, 1, 25)
    );
    assert_eq!(
        header_error(b"#![enable(implicit_some)]\n#"),
        parser_error(ParseError::ExpectedAttribute, 2, 2)
    );
}

#[test]
fn extension_names() {
    assert_eq!(Extensions::from_ident(b"unwrap_newtypes"), Some(Extensions { bits: 1 }));
    assert_eq!(Extensions::from_ident(b"implicit_some"), Some(Extensions { bits: 2 }));
    assert_eq!(Extensions::from_ident(b"implicit_som"), None);
    assert_eq!(Extensions::from_ident(b"Implicit_some"), None);
    assert_eq!(Extensions::from_ident(b""), None);
}

#[test]
fn extension_sets() {
    let one = Extensions { bits: UNWRAP_NEWTYPES };
    let two = Extensions { bits: IMPLICIT_SOME };
    let mut both = Extensions::empty();
    assert!(both.is_empty());
    both.insert(one);
    assert!(!both.is_empty());
    assert!(!both.contains(two));
    both.insert(two);
    assert!(both.contains(one) && both.contains(two) && both.contains(both));
    let mut other = two;
    other.insert(one);
    other.insert(one);
    assert_eq!(both, other);
}

#[test]
fn one_attribute_enables_what_it_names() {
    for (names, bits) in [
        ("unwrap_newtypes", UNWRAP_NEWTYPES),
        ("implicit_some", IMPLICIT_SOME),
        ("implicit_some,implicit_some", IMPLICIT_SOME),
        ("unwrap_newtypes,implicit_some", UNWRAP_NEWTYPES | IMPLICIT_SOME),
        ("implicit_some,unwrap_newtypes", UNWRAP_NEWTYPES | IMPLICIT_SOME),
    ] {
        let document = format!("#![enable({})] // c\n(x)", names);
        let b = parser(document.as_bytes());
        assert_eq!(b.exts, Extensions { bits });
        assert_eq!(b.bytes(), b"(x)");
        let indented = format!("\n {}", document);
        let c = parser(indented.as_bytes());
        assert_eq!(c.exts, b.exts);
        assert_eq!(c.bytes(), b.bytes());
    }
}

#[test]
fn comments_are_blank() {
    for line in ["", "/", " \"#", "\t//"] {
        let input = format!("x//{}\n \n.", line);
        let mut b = parser(input.as_bytes());
        assert_eq!(b.eat_byte(), Ok(b'x'));
        b.skip_ws();
        assert_eq!(b.bytes(), b".");
        assert_eq!(position_of(&b), at(3, 1));
    }
}

#[test]
fn signs() {
    for digits in ["5", "0x1f", "0b11", "300", "0o8", "x"] {
        let plain = parser(digits.as_bytes()).signed_integer::<i8>();
        let plus = format!("+{}", digits);
        let minus = format!("-{}", digits);
        assert_eq!(parser(plus.as_bytes()).signed_integer::<i8>().ok(), plain.clone().ok());
        assert_eq!(
            parser(minus.as_bytes()).signed_integer::<i8>().ok(),
            plain.ok().map(|v| -v)
        );
    }
}

#[test]
fn readers_leave_a_suffix() {
    let inputs = [
        "", "'", "'a", "'\\u{", "'\\u{110000}'", "\"", "\"a\\", "\"a\\n\"z", "true", "tru", "0x", "0xfg", "-", "-0b2",
        "_a b", "1.5e", ",", "x // y", "\u{e9}", "\"\u{e9}\\x41\u{20ac}\" ",
    ];
    for input in inputs {
        let bytes = input.as_bytes();
        let start = parser(bytes);
        let left = |read: fn(&mut Bytes<'_>)| {
            let mut b = start;
            read(&mut b);
            assert!(bytes.ends_with(b.bytes()));
            let used = &bytes[..bytes.len() - b.bytes().len()];
            let mut c = start;
            assert_eq!(c.advance(used.len()), Ok(()));
            assert_eq!(position_of(&b), position_of(&c));
        };
        left(|b| b.skip_ws());
        left(|b| drop(b.comma()));
        left(|b| drop(b.bool()));
        left(|b| drop(b.identifier()));
        left(|b| drop(b.char()));
        left(|b| drop(b.string()));
        left(|b| drop(b.unsigned_integer::<u16>()));
        left(|b| drop(b.signed_integer::<i16>()));
        left(|b| drop(b.float(|s: &str| s.parse::<f64>())));
    }
}

#[test]
fn extension_texts() {
    for (bits, text) in [
        (0, "(empty)"),
        (UNWRAP_NEWTYPES, "UNWRAP_NEWTYPES"),
        (IMPLICIT_SOME, "IMPLICIT_SOME"),
        (UNWRAP_NEWTYPES | IMPLICIT_SOME, "UNWRAP_NEWTYPES | IMPLICIT_SOME"),
        (0x1af0, "0x1af0"),
        (0x11, "UNWRAP_NEWTYPES | 0x10"),
    ] {
        let e = Extensions { bits };
        assert_eq!(e.to_text(), text);
        assert_eq!(format!("{:?}", e), text);
    }
    let b = parser(b"#![enable(implicit_some)]");
    assert!(format!("{:?}", b).contains("exts: IMPLICIT_SOME,"));
}

#[test]
fn extension_order() {
    let one = Extensions { bits: UNWRAP_NEWTYPES };
    let two = Extensions { bits: IMPLICIT_SOME };
    assert!(Extensions::empty() < one && one < two);
    assert_eq!(one.max(two), two);
    let set: std::collections::HashSet<Extensions> = vec![one, two, one].into_iter().collect();
    assert_eq!(set.len(), 2);
}

#[test]
fn byte_escapes() {
    for v in 0..=255u8 {
        for input in [format!("x{:02x}rest", v), format!("x{:02X}rest", v)] {
            let mut b = parser(input.as_bytes());
            assert_eq!(b.parse_escape(), Ok(v as char));
            assert_eq!(b.bytes(), b"rest");
        }
    }
}

#[test]
fn tokens_one_by_one() {
    for (input, taken) in [("a b // c\nc .", 3), ("a  b\n.", 2), ("a  c", 1), ("b a", 0), ("", 0)] {
        let all = ["a", "b", "c"];
        let mut b = parser(input.as_bytes());
        let mut c = b;
        let mut k = 0;
        while k < all.len() && c.consume(all[k]) {
            c.skip_ws();
            k += 1;
        }
        assert_eq!(k, taken);
        assert_eq!(b.consume_all(&all), k == all.len());
        assert_eq!(b.bytes(), c.bytes());
        assert_eq!(position_of(&b), position_of(&c));
    }
    let mut b = parser(b"x");
    assert!(b.consume_all(&[]));
    assert_eq!(b.bytes(), b"x");
}

#[test]
fn copies_are_independent() {
    let mut b = parser(b"abc");
    let saved = b;
    assert_eq!(b.advance(2), Ok(()));
    assert_eq!(saved.bytes(), b"abc");
    assert_eq!(b.bytes(), b"c");
}
