//! Where errors are reported.

use crate::grammar;
use crate::grammar::ByteClass;
use crate::num::Num;
use vstd::prelude::*;

verus! {

/// The error of a token that is no number, and of a header, is reported where the parser
/// stopped.
pub proof fn law_errors_are_reported_where_reading_stopped(s: Seq<u8>)
    ensures
        grammar::boolean(s).result matches Err(f) ==> f.at == grammar::boolean(s).used,
        grammar::identifier(s).result matches Err(f) ==> f.at == grammar::identifier(s).used,
        grammar::ascii_escape(s).result matches Err(f) ==> f.at == grammar::ascii_escape(s).used,
        grammar::escape(s).result matches Err(f) ==> f.at == grammar::escape(s).used,
        grammar::character(s).result matches Err(f) ==> f.at == grammar::character(s).used,
        grammar::string(s).result matches Err(f) ==> f.at == grammar::string(s).used,
        grammar::header(s).result matches Err(f) ==> f.at == grammar::header(s).used,
{
    grammar::lemma_escape(s);
    if s.len() > 1 {
        grammar::lemma_escape(s.skip(2));
    }
    if s.len() > 0 {
        let t = s.drop_first();
        let i = grammar::run(t, ByteClass::StringBody) as int;
        grammar::lemma_run(t, ByteClass::StringBody);
        lemma_string_rest_fault(t.skip(i + 1), t.take(i));
    }
    lemma_attributes_fault(s.skip(grammar::blank(s) as int));
}

/// The error of an integer is reported in front of its digits, and they are consumed.
pub proof fn law_integer_errors_are_reported_at_the_digits<T: Num>(s: Seq<u8>)
    ensures
        grammar::unsigned::<T>(s).result matches Err(f) ==> f.kind is ExpectedInteger && f.at
            == (if grammar::radix(s) == 10 {
            0nat
        } else {
            2
        }) && grammar::unsigned::<T>(s).used == f.at + grammar::run(
            s.skip(f.at as int),
            ByteClass::Digit,
        ),
{
}

proof fn lemma_string_rest_fault(s: Seq<u8>, acc: Seq<u8>)
    ensures
        grammar::string_rest(s, acc).result matches Err(f) ==> f.at == grammar::string_rest(
            s,
            acc,
        ).used,
    decreases s.len(),
{
    let piece = grammar::string_piece(s);
    grammar::lemma_string_piece(s);
    if let Ok((bytes, more)) = piece.result {
        if more {
            lemma_string_rest_fault(s.skip(piece.used as int), acc + bytes);
        }
    }
}

proof fn lemma_names_fault(s: Seq<u8>)
    ensures
        grammar::extension_names(s).result matches Err(f) ==> f.at == grammar::extension_names(
            s,
        ).used,
    decreases s.len(),
{
    reveal(grammar::extension_item);
    let item = grammar::extension_item(s);
    grammar::lemma_extension_item(s);
    if let Ok((_, more)) = item.result {
        if more {
            lemma_names_fault(s.skip(item.used as int));
        }
    }
}

proof fn lemma_attributes_fault(s: Seq<u8>)
    ensures
        grammar::attributes(s).result matches Err(f) ==> f.at == grammar::attributes(s).used,
    decreases s.len(),
{
    reveal(grammar::attribute);
    if grammar::at_attribute(s) {
        grammar::lemma_attribute(s);
        let n = grammar::tokens(s, grammar::attribute_start()).0;
        lemma_names_fault(s.skip(n as int));
        if grammar::attribute(s).result is Ok {
            lemma_attributes_fault(s.skip(grammar::attribute(s).used as int));
        }
    }
}

} // verus!
