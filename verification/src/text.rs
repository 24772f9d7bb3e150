//! UTF-8: what the standard library decides, and how a character is written.

use crate::error::Utf8Error;
use vstd::prelude::*;
use vstd::utf8::*;

verus! {

/// The UTF-8 bytes of a text.
pub open spec fn bytes_of(s: &str) -> Seq<u8> {
    encode_utf8(s@)
}

/// The length of the longest prefix that is UTF-8.
pub open spec fn utf8_prefix_len(bytes: Seq<u8>) -> nat
    decreases bytes.len(),
{
    if valid_utf8(bytes) {
        bytes.len()
    } else {
        utf8_prefix_len(bytes.drop_last())
    }
}

/// The error for bytes that are not UTF-8.
pub open spec fn utf8_error(bytes: Seq<u8>) -> Utf8Error {
    Utf8Error { valid_up_to: utf8_prefix_len(bytes) as usize }
}

/// Calls [`std::str::from_utf8`]. It succeeds exactly on UTF-8, with the text that
/// the bytes encode; otherwise `valid_up_to` of its error is the largest index up to
/// which the bytes are UTF-8. Nothing else is kept of that error.
#[verifier::external_body]
pub(crate) fn str_from_utf8(bytes: &[u8]) -> (r: Result<&str, Utf8Error>)
    ensures
        match r {
            Ok(s) => valid_utf8(bytes@) && s@ == decode_utf8(bytes@),
            Err(e) => !valid_utf8(bytes@) && e == utf8_error(bytes@),
        },
{
    match std::str::from_utf8(bytes) {
        Ok(s) => Ok(s),
        Err(e) => Err(Utf8Error { valid_up_to: e.valid_up_to() }),
    }
}

/// Calls [`String::from_utf8`]. It succeeds exactly on UTF-8, with the text that
/// the bytes encode; otherwise `utf8_error().valid_up_to()` of its error is the largest
/// index up to which the bytes are UTF-8. Nothing else is kept of that error.
#[verifier::external_body]
pub(crate) fn string_from_utf8(bytes: Vec<u8>) -> (r: Result<String, Utf8Error>)
    ensures
        match r {
            Ok(s) => valid_utf8(bytes@) && s@ == decode_utf8(bytes@),
            Err(e) => !valid_utf8(bytes@) && e == utf8_error(bytes@),
        },
{
    match String::from_utf8(bytes) {
        Ok(s) => Ok(s),
        Err(e) => Err(Utf8Error { valid_up_to: e.utf8_error().valid_up_to() }),
    }
}

/// Specifies [`std::char::from_u32`]: the Unicode scalar values become characters,
/// and nothing else does.
pub assume_specification[ std::char::from_u32 ](i: u32) -> (r: Option<char>)
    ensures
        r == if is_scalar(i) { Some(i as char) } else { None },
;

/// Appends the UTF-8 encoding of a character.
pub(crate) fn push_char(out: &mut Vec<u8>, c: char)
    ensures
        final(out)@ == old(out)@ + encode_scalar(c as u32),
{
    let v: u32 = c as u32;
    if v <= 0x7F {
        out.push((v & 0x7F) as u8);
    } else if v <= 0x7FF {
        out.push(0xC0 | ((v >> 6) & 0x1F) as u8);
        out.push(0x80 | (v & 0x3F) as u8);
    } else if v <= 0xFFFF {
        out.push(0xE0 | ((v >> 12) & 0x0F) as u8);
        out.push(0x80 | ((v >> 6) & 0x3F) as u8);
        out.push(0x80 | (v & 0x3F) as u8);
    } else {
        out.push(0xF0 | ((v >> 18) & 0x7) as u8);
        out.push(0x80 | ((v >> 12) & 0x3F) as u8);
        out.push(0x80 | ((v >> 6) & 0x3F) as u8);
        out.push(0x80 | (v & 0x3F) as u8);
    }
    assert(out@ =~= old(out)@ + encode_scalar(v));
}

/// ASCII characters are one byte each.
pub proof fn lemma_ascii_bytes(s: &str, bytes: Seq<u8>)
    requires
        s@.len() == bytes.len(),
        forall|i: int|
            0 <= i < bytes.len() ==> '\0' <= #[trigger] s@[i] <= '\u{7f}' && s@[i] as u8
                == bytes[i],
    ensures
        bytes_of(s) == bytes,
{
    is_ascii_chars_encode_utf8(s@);
    assert(bytes_of(s) =~= bytes);
}

/// Bytes below 128 are UTF-8.
pub proof fn lemma_ascii_is_utf8(bytes: Seq<u8>)
    requires
        forall|i: int| 0 <= i < bytes.len() ==> #[trigger] bytes[i] < 128,
    ensures
        valid_utf8(bytes),
    decreases bytes.len(),
{
    if bytes.len() > 0 {
        let b = bytes[0];
        assert((b & 0x7F) as u32 <= 0x7F) by (bit_vector);
        assert(valid_first_scalar(bytes));
        let rest = pop_first_scalar(bytes);
        assert forall|i: int| 0 <= i < rest.len() implies #[trigger] rest[i] < 128 by {
            assert(rest[i] == bytes[i + 1]);
        }
        lemma_ascii_is_utf8(rest);
    }
}

} // verus!
