//! Extensions, and the attributes that enable them.

use crate::cursor::Outcome;
use crate::error::ParseError;
use crate::extensions;
use crate::extensions::{Extensions, IMPLICIT_SOME, UNWRAP_NEWTYPES};
use crate::grammar;
use crate::grammar::{ByteClass, HeaderFault};
use crate::laws::alphabet;
use crate::laws::words;
use vstd::prelude::*;
use vstd::utf8::*;

verus! {

/// Enabling extensions is commutative, associative and idempotent: neither the order nor
/// a repetition of names matters.
pub proof fn law_order_and_repetition_do_not_matter(a: Extensions, b: Extensions, c: Extensions)
    ensures
        a.or(b) == b.or(a),
        a.or(b).or(c) == a.or(b.or(c)),
        a.or(a) == a,
        a.or(Extensions::none()) == a,
{
    let (x, y, z) = (a.bits, b.bits, c.bits);
    assert(x | y == y | x) by (bit_vector);
    assert((x | y) | z == x | (y | z)) by (bit_vector);
    assert(x | x == x) by (bit_vector);
    assert(x | 0usize == x) by (bit_vector);
}

/// What is enabled stays enabled.
pub proof fn law_enabling_disables_nothing(a: Extensions, b: Extensions)
    ensures
        a.or(b).bits & a.bits == a.bits,
        a.or(b).bits & b.bits == b.bits,
{
    let (x, y) = (a.bits, b.bits);
    assert((x | y) & x == x) by (bit_vector);
    assert((x | y) & y == y) by (bit_vector);
}

/// A document enables known extensions only.
pub proof fn law_header_enables_known_extensions(s: Seq<u8>)
    ensures
        grammar::header(s).result matches Ok(e) ==> e.bits & (UNWRAP_NEWTYPES | IMPLICIT_SOME)
            == e.bits,
{
    lemma_attributes_known(s.skip(grammar::blank(s) as int));
}

/// A document without attributes enables nothing, and only blanks are consumed.
pub proof fn law_no_attributes(s: Seq<u8>)
    requires
        !grammar::at_attribute(s.skip(grammar::blank(s) as int)),
    ensures
        grammar::header(s).used == grammar::blank(s),
        grammar::header(s).result matches Ok(e) && e == Extensions::none(),
{
}

/// Behind the attributes of a document there is neither a blank nor another attribute.
pub proof fn law_header_is_maximal(s: Seq<u8>)
    ensures
        grammar::header(s).result is Ok ==> ({
            let t = s.skip(grammar::header(s).used as int);
            grammar::blank(t) == 0 && !grammar::at_attribute(t)
        }),
{
    grammar::lemma_blank(s);
    let u = s.skip(grammar::blank(s) as int);
    lemma_attributes_maximal(u);
    grammar::lemma_attributes(u);
    assert(u.skip(grammar::attributes(u).used as int) =~= s.skip(grammar::header(s).used as int));
}

/// Blanks in front of a document only move what is read.
pub proof fn law_blanks_in_front(w: Seq<u8>, s: Seq<u8>)
    requires
        forall|i: int| 0 <= i < w.len() ==> ByteClass::WhiteSpace.has(#[trigger] w[i]),
    ensures
        grammar::header(w + s) == grammar::header(s).behind(w.len()),
{
    words::law_blanks_concatenate(w, s);
    grammar::lemma_blank(s);
    assert((w + s).skip(grammar::blank(w + s) as int) =~= s.skip(grammar::blank(s) as int));
}

/// The name of an extension, and the extension.
pub open spec fn extension(unwrap: bool) -> (Seq<u8>, Extensions) {
    if unwrap {
        (extensions::unwrap_newtypes_name(), Extensions { bits: UNWRAP_NEWTYPES })
    } else {
        (extensions::implicit_some_name(), Extensions { bits: IMPLICIT_SOME })
    }
}

/// The names of some extensions, separated by commas. Each is given by whether it is
/// `unwrap_newtypes`.
pub open spec fn written_names(list: Seq<bool>) -> Seq<u8>
    decreases list.len(),
{
    if list.len() <= 1 {
        extension(list[0]).0
    } else {
        extension(list[0]).0 + seq![',' as u8] + written_names(list.drop_first())
    }
}

/// All of these extensions.
pub open spec fn enabled(list: Seq<bool>) -> Extensions
    decreases list.len(),
{
    if list.len() <= 1 {
        extension(list[0]).1
    } else {
        extension(list[0]).1.or(enabled(list.drop_first()))
    }
}

/// The bytes `#![enable(`.
pub open spec fn written_start() -> Seq<u8> {
    seq!['#' as u8, '!' as u8, '[' as u8] + grammar::enable_word() + seq!['(' as u8]
}

/// An attribute that enables some extensions.
pub open spec fn written_attribute(list: Seq<bool>) -> Seq<u8> {
    written_start() + written_names(list) + seq![')' as u8, ']' as u8]
}

/// An attribute that names extensions enables these and no others, whatever follows.
pub proof fn law_attribute_round_trip(list: Seq<bool>, tail: Seq<u8>)
    requires
        list.len() > 0,
    ensures
        grammar::attribute(written_attribute(list) + tail) == Outcome::<
            Extensions,
            HeaderFault,
        >::value(written_attribute(list).len() + grammar::blank(tail), enabled(list)),
{
    reveal(grammar::attribute);
    let s = written_attribute(list) + tail;
    let names = written_names(list);
    let after = seq![')' as u8, ']' as u8] + tail;
    let body = names + after;
    let n = written_start().len();
    assert(s =~= written_start() + body);
    assert(s[0] == '#' as u8);
    lemma_written_names(list, after);
    lemma_start_tokens(body);
    assert(s.skip(n as int) =~= body);
    let m = n + names.len();
    assert(s.skip(m as int) =~= after);
    lemma_end_tokens(tail);
}

proof fn lemma_no_blank(s: Seq<u8>)
    requires
        s.len() > 0,
        !ByteClass::WhiteSpace.has(s[0]),
        s[0] != '/' as u8,
    ensures
        grammar::blank(s) == 0,
{
    if grammar::slashes().is_prefix_of(s) {
        assert(s.subrange(0, 2)[0] == grammar::slashes()[0]);
    }
}

proof fn lemma_token(token: Seq<u8>, s: Seq<u8>, others: Seq<Seq<u8>>)
    requires
        grammar::blank(s) == 0,
    ensures
        grammar::tokens(token + s, seq![token] + others) == (
            token.len() + grammar::tokens(s, others).0,
            grammar::tokens(s, others).1,
        ),
{
    let q = token + s;
    let all = seq![token] + others;
    assert(q.subrange(0, token.len() as int) =~= token);
    assert(q.skip(token.len() as int) =~= s);
    assert(all[0] == token);
    assert(all.drop_first() =~= others);
}

proof fn lemma_start_tokens(s: Seq<u8>)
    requires
        s.len() > 0,
        ByteClass::IdentFirst.has(s[0]),
    ensures
        grammar::tokens(written_start() + s, grammar::attribute_start()) == (
            written_start().len(),
            true,
        ),
{
    let (t1, t2, t3) = (seq!['#' as u8], seq!['!' as u8], seq!['[' as u8]);
    let (t4, t5) = (grammar::enable_word(), seq!['(' as u8]);
    let none = Seq::<Seq<u8>>::empty();
    let (o4, o3) = (seq![t5] + none, seq![t4] + (seq![t5] + none));
    let (o2, o1) = (seq![t3] + o3, seq![t2] + (seq![t3] + o3));
    let (s4, s3) = (t5 + s, t4 + (t5 + s));
    let (s2, s1) = (t3 + s3, t2 + (t3 + s3));
    lemma_no_blank(s);
    lemma_no_blank(s4);
    lemma_no_blank(s3);
    lemma_no_blank(s2);
    lemma_no_blank(s1);
    lemma_token(t5, s, none);
    lemma_token(t4, s4, o4);
    lemma_token(t3, s3, o3);
    lemma_token(t2, s2, o2);
    lemma_token(t1, s1, o1);
    assert(seq![t1] + o1 =~= grammar::attribute_start());
    assert(t1 + s1 =~= written_start() + s);
}

proof fn lemma_end_tokens(tail: Seq<u8>)
    ensures
        grammar::tokens(seq![')' as u8, ']' as u8] + tail, grammar::attribute_end()) == (
            2 + grammar::blank(tail),
            true,
        ),
{
    let (t1, t2) = (seq![')' as u8], seq![']' as u8]);
    let none = Seq::<Seq<u8>>::empty();
    let s1 = t2 + tail;
    lemma_no_blank(s1);
    lemma_token(t1, s1, seq![t2]);
    assert(t1 + s1 =~= seq![')' as u8, ']' as u8] + tail);
    assert(seq![t1] + seq![t2] =~= grammar::attribute_end());
    assert(s1.subrange(0, 1) =~= t2);
    assert(s1.skip(1) =~= tail);
    assert(seq![t2].drop_first() =~= none);
    let n = 1 + grammar::blank(tail);
    assert(grammar::tokens(s1.skip(n as int), none) == (0nat, true));
    assert(grammar::tokens(s1, seq![t2]) == (n, true));
}

proof fn lemma_item(unwrap: bool, s: Seq<u8>)
    requires
        s.len() > 0,
        s[0] == ')' as u8 || (s[0] == ',' as u8 && s.len() > 1 && ByteClass::IdentFirst.has(s[1])),
    ensures
        grammar::extension_item(extension(unwrap).0 + s) == Outcome::<
            (Extensions, bool),
            HeaderFault,
        >::value(
            extension(unwrap).0.len() + if s[0] == ',' as u8 {
                1nat
            } else {
                0
            },
            (extension(unwrap).1, s[0] == ',' as u8),
        ),
{
    reveal(grammar::extension_item);
    let (name, e) = extension(unwrap);
    let q = name + s;
    let k = name.len();
    assert forall|i: int| 0 <= i < k implies ByteClass::IdentChar.has(#[trigger] q[i]) by {
        assert(q[i] == name[i]);
    }
    assert(q[k as int] == s[0]);
    grammar::lemma_run_is(q, ByteClass::IdentChar, k);
    assert(q[0] == name[0]);
    assert(q.take(k as int) =~= name);
    assert(q.skip(k as int) =~= s);
    assert(extensions::unwrap_newtypes_name()[0] != extensions::implicit_some_name()[0]);
    lemma_no_blank(s);
    if s[0] == ',' as u8 {
        let t = s.skip(1);
        assert(t[0] == s[1]);
        lemma_no_blank(t);
        assert(q[k as int + 1] == s[1]);
    }
}

proof fn lemma_written_names(list: Seq<bool>, s: Seq<u8>)
    requires
        list.len() > 0,
        s.len() > 0,
        s[0] == ')' as u8,
    ensures
        written_names(list).len() > 0,
        ByteClass::IdentFirst.has(written_names(list)[0]),
        grammar::extension_names(written_names(list) + s) == Outcome::<
            Extensions,
            HeaderFault,
        >::value(written_names(list).len(), enabled(list)),
    decreases list.len(),
{
    let name = extension(list[0]).0;
    let q = written_names(list) + s;
    if list.len() == 1 {
        lemma_item(list[0], s);
    } else {
        let rest = list.drop_first();
        lemma_written_names(rest, s);
        let after = written_names(rest) + s;
        let t = seq![',' as u8] + after;
        assert(t[1] == written_names(rest)[0]);
        assert(q =~= name + t);
        lemma_item(list[0], t);
        assert(q.skip(name.len() as int + 1) =~= after);
    }
}

proof fn lemma_names_known(s: Seq<u8>)
    ensures
        grammar::extension_names(s).result matches Ok(e) ==> e.bits & 3 == e.bits,
    decreases s.len(),
{
    reveal(grammar::extension_item);
    let item = grammar::extension_item(s);
    grammar::lemma_extension_item(s);
    if let Ok((e, more)) = item.result {
        assert(1usize & 3 == 1) by (bit_vector);
        assert(2usize & 3 == 2) by (bit_vector);
        assert(e.bits & 3 == e.bits);
        if more {
            let u = s.skip(item.used as int);
            lemma_names_known(u);
            if let Ok(o) = grammar::extension_names(u).result {
                let (x, y) = (e.bits, o.bits);
                assert(x & 3 == x && y & 3 == y ==> (x | y) & 3 == x | y) by (bit_vector);
            }
        }
    }
}

proof fn lemma_attributes_known(s: Seq<u8>)
    ensures
        grammar::attributes(s).result matches Ok(e) ==> e.bits & (UNWRAP_NEWTYPES | IMPLICIT_SOME)
            == e.bits,
    decreases s.len(),
{
    reveal(grammar::attribute);
    assert(UNWRAP_NEWTYPES | IMPLICIT_SOME == 3) by (bit_vector);
    assert(0usize & 3 == 0) by (bit_vector);
    if grammar::at_attribute(s) {
        grammar::lemma_attribute(s);
        let n = grammar::tokens(s, grammar::attribute_start()).0;
        lemma_names_known(s.skip(n as int));
        if let Ok(e) = grammar::attribute(s).result {
            let u = s.skip(grammar::attribute(s).used as int);
            lemma_attributes_known(u);
            if let Ok(o) = grammar::attributes(u).result {
                let (x, y) = (e.bits, o.bits);
                assert(x & 3 == x && y & 3 == y ==> (x | y) & 3 == x | y) by (bit_vector);
            }
        }
    }
}

proof fn lemma_attributes_maximal(s: Seq<u8>)
    requires
        grammar::blank(s) == 0,
    ensures
        grammar::attributes(s).result is Ok ==> ({
            let t = s.skip(grammar::attributes(s).used as int);
            grammar::blank(t) == 0 && !grammar::at_attribute(t)
        }),
    decreases s.len(),
{
    if grammar::at_attribute(s) {
        grammar::lemma_attribute(s);
        if grammar::attribute(s).result is Ok {
            let u = s.skip(grammar::attribute(s).used as int);
            lemma_attributes_maximal(u);
            grammar::lemma_attributes(u);
            assert(u.skip(grammar::attributes(u).used as int) =~= s.skip(
                grammar::attributes(s).used as int,
            ));
        }
    } else {
        assert(s.skip(0) =~= s);
    }
}

/// The name of one extension or the other.
pub open spec fn known_name(unwrap: bool) -> Seq<u8> {
    if unwrap {
        alphabet::as_bytes("unwrap_newtypes"@)
    } else {
        alphabet::as_bytes("implicit_some"@)
    }
}

/// The set that holds one extension, the other, or both.
pub open spec fn set_of(unwrap: bool, implicit: bool) -> Extensions {
    Extensions {
        bits: if unwrap && implicit {
            3
        } else if implicit {
            2
        } else if unwrap {
            1
        } else {
            0
        },
    }
}

/// Two names are those of extensions, and no others are.
pub proof fn law_known_names(name: Seq<u8>)
    ensures
        name == known_name(true) ==> (Extensions::named(name) matches Some(e) && e == set_of(
            true,
            false,
        )),
        name == known_name(false) ==> (Extensions::named(name) matches Some(e) && e == set_of(
            false,
            true,
        )),
        name != known_name(true) && name != known_name(false) ==> Extensions::named(name) is None,
{
    lemma_known_names();
}

/// A set of extensions is joined with another to the smallest that holds both.
pub proof fn law_smallest_set(a: Extensions, b: Extensions, c: Extensions)
    ensures
        a.or(b).bits & a.bits == a.bits,
        a.or(b).bits & b.bits == b.bits,
        c.bits & a.bits == a.bits && c.bits & b.bits == b.bits ==> c.bits & a.or(b).bits == a.or(
            b,
        ).bits,
        Extensions::none().bits == 0,
{
    let (x, y, z) = (a.bits, b.bits, c.bits);
    assert((x | y) & x == x && (x | y) & y == y && (z & x == x && z & y == y ==> z & (x | y) == x
        | y)) by (bit_vector);
}

/// A set of known extensions is written by their names.
pub proof fn law_set_texts(unwrap: bool, implicit: bool)
    ensures
        set_of(unwrap, implicit).written() == if unwrap && implicit {
            "UNWRAP_NEWTYPES | IMPLICIT_SOME"@
        } else if implicit {
            "IMPLICIT_SOME"@
        } else if unwrap {
            "UNWRAP_NEWTYPES"@
        } else {
            "(empty)"@
        },
{
    let e = set_of(unwrap, implicit);
    assert(0usize & 1 == 0 && 0usize & 2 == 0 && 1usize & 1 == 1 && 1usize & 2 == 0 && 2usize & 1
        == 0 && 2usize & 2 == 2 && 3usize & 1 == 1 && 3usize & 2 == 2) by (bit_vector);
    assert(0usize & !(UNWRAP_NEWTYPES | IMPLICIT_SOME) == 0 && 1usize & !(UNWRAP_NEWTYPES
        | IMPLICIT_SOME) == 0 && 2usize & !(UNWRAP_NEWTYPES | IMPLICIT_SOME) == 0 && 3usize & !(
    UNWRAP_NEWTYPES | IMPLICIT_SOME) == 0) by (bit_vector);
    let none = Seq::<Seq<char>>::empty();
    if unwrap && implicit {
        reveal_strlit("UNWRAP_NEWTYPES | IMPLICIT_SOME");
        reveal_strlit("UNWRAP_NEWTYPES");
        reveal_strlit("IMPLICIT_SOME");
        reveal_strlit(" | ");
        let two = seq!["UNWRAP_NEWTYPES"@, "IMPLICIT_SOME"@];
        assert(e.words() =~= two);
        assert(two.drop_last() =~= seq!["UNWRAP_NEWTYPES"@]);
        reveal_with_fuel(extensions::barred, 2);
        assert(extensions::barred(two) =~= "UNWRAP_NEWTYPES | IMPLICIT_SOME"@);
    } else if implicit {
        assert(e.words() =~= seq!["IMPLICIT_SOME"@]);
    } else if unwrap {
        assert(e.words() =~= seq!["UNWRAP_NEWTYPES"@]);
    } else {
        assert(e.words() =~= none);
    }
}

/// Bits that belong to no known extension are written behind the names, as a number.
pub proof fn law_unknown_bits_texts(unwrap: bool, implicit: bool, others: usize)
    requires
        others != 0,
        others & 3 == 0,
    ensures
        ({
            let number = "0x"@ + extensions::hexadecimal(others as nat);
            Extensions { bits: set_of(unwrap, implicit).bits | others }.written() == if unwrap
                || implicit {
                set_of(unwrap, implicit).written() + " | "@ + number
            } else {
                number
            }
        }),
{
    let k = set_of(unwrap, implicit).bits;
    let e = Extensions { bits: k | others };
    let n = seq!["0x"@ + extensions::hexadecimal(others as nat)];
    assert(others & 3 == 0 && k <= 3 ==> (k | others) & 1 == k & 1 && (k | others) & 2 == k & 2 && (
    k | others) & !(UNWRAP_NEWTYPES | IMPLICIT_SOME) == others) by (bit_vector);
    assert(0usize & 1 == 0 && 0usize & 2 == 0 && 1usize & 1 == 1 && 1usize & 2 == 0 && 2usize & 1
        == 0 && 2usize & 2 == 2 && 3usize & 1 == 1 && 3usize & 2 == 2) by (bit_vector);
    law_set_texts(unwrap, implicit);
    assert(0usize & !(UNWRAP_NEWTYPES | IMPLICIT_SOME) == 0 && 1usize & !(UNWRAP_NEWTYPES
        | IMPLICIT_SOME) == 0 && 2usize & !(UNWRAP_NEWTYPES | IMPLICIT_SOME) == 0 && 3usize & !(
    UNWRAP_NEWTYPES | IMPLICIT_SOME) == 0) by (bit_vector);
    let before = set_of(unwrap, implicit).words();
    assert(e.words() =~= before + n);
    assert((before + n).drop_last() =~= before);
    if !unwrap && !implicit {
        assert(before + n =~= n);
    }
}

/// What an error of the parser reports of a malformed attribute: the error itself, or the
/// name that is none of an extension.
pub proof fn law_reports(fault: HeaderFault, kind: ParseError)
    ensures
        fault.reported_as(kind) <==> match fault {
            HeaderFault::Syntax(e) => e == kind,
            HeaderFault::UnknownExtension(name) => match kind {
                ParseError::NoSuchExtension(s) => valid_utf8(name) && s@ == decode_utf8(name),
                _ => false,
            },
        },
{
    if let HeaderFault::UnknownExtension(name) = fault {
        if let ParseError::NoSuchExtension(s) = kind {
            encode_utf8_decode_utf8(s@);
            encode_utf8_valid_utf8(s@);
            if valid_utf8(name) {
                decode_utf8_encode_utf8(name);
            }
        }
    }
}

/// The tokens that open an attribute.
pub open spec fn opening() -> Seq<Seq<u8>> {
    seq![
        seq!['#' as u8],
        seq!['!' as u8],
        seq!['[' as u8],
        seq!['e' as u8, 'n' as u8, 'a' as u8, 'b' as u8, 'l' as u8, 'e' as u8],
        seq!['(' as u8],
    ]
}

/// The tokens that close an attribute.
pub open spec fn closing() -> Seq<Seq<u8>> {
    seq![seq![')' as u8], seq![']' as u8]]
}

/// The first `k` of some tokens, each with a gap behind it.
pub open spec fn spaced(all: Seq<Seq<u8>>, gaps: Seq<Seq<u8>>, k: nat) -> Seq<u8>
    decreases k,
{
    if k == 0 {
        Seq::empty()
    } else {
        all[0] + gaps[0] + spaced(all.drop_first(), gaps.drop_first(), (k - 1) as nat)
    }
}

/// Whether these are that many gaps: blanks and comments, or nothing.
pub open spec fn are_gaps(gaps: Seq<Seq<u8>>, k: nat) -> bool {
    gaps.len() == k && forall|i: int| 0 <= i < k ==> alphabet::is_gap(#[trigger] gaps[i])
}

/// The name of an extension in an attribute, the gap behind it, and a comma with the gap
/// behind that.
pub struct Name {
    pub unwrap: bool,
    pub gap: Seq<u8>,
    pub comma: bool,
    pub after: Seq<u8>,
}

impl Name {
    /// Whether the gaps are such.
    pub open spec fn valid(self) -> bool {
        alphabet::is_gap(self.gap) && alphabet::is_gap(self.after)
    }

    /// The bytes that write it.
    pub open spec fn bytes(self) -> Seq<u8> {
        known_name(self.unwrap) + self.gap + if self.comma {
            seq![',' as u8] + self.after
        } else {
            Seq::empty()
        }
    }
}

/// Some names, each with a comma.
pub open spec fn are_listed(list: Seq<Name>) -> bool {
    forall|i: int| 0 <= i < list.len() ==> (#[trigger] list[i]).valid() && list[i].comma
}

/// The bytes that write some names.
pub open spec fn listed(list: Seq<Name>) -> Seq<u8>
    decreases list.len(),
{
    if list.len() == 0 {
        Seq::empty()
    } else {
        list[0].bytes() + listed(list.drop_first())
    }
}

/// Whether an extension is among those named.
pub open spec fn mentions(list: Seq<Name>, unwrap: bool) -> bool {
    exists|i: int| 0 <= i < list.len() && (#[trigger] list[i]).unwrap == unwrap
}

/// An attribute: the gaps in front of the names, the names, of which the last may lack its
/// comma, and the gaps behind `)` and `]`.
pub struct Attribute {
    pub gaps: Seq<Seq<u8>>,
    pub list: Seq<Name>,
    pub last: Name,
    pub ends: Seq<Seq<u8>>,
}

impl Attribute {
    /// Whether the gaps are such and the names listed.
    pub open spec fn valid(self) -> bool {
        are_gaps(self.gaps, 5) && are_gaps(self.ends, 2) && are_listed(self.list)
            && self.last.valid()
    }

    /// The bytes that write it.
    pub open spec fn bytes(self) -> Seq<u8> {
        spaced(opening(), self.gaps, 5) + (listed(self.list) + (self.last.bytes() + spaced(
            closing(),
            self.ends,
            2,
        )))
    }

    /// Whether it names an extension.
    pub open spec fn names(self, unwrap: bool) -> bool {
        mentions(self.list, unwrap) || self.last.unwrap == unwrap
    }
}

/// The bytes that write some attributes.
pub open spec fn all_bytes(attributes: Seq<Attribute>) -> Seq<u8>
    decreases attributes.len(),
{
    if attributes.len() == 0 {
        Seq::empty()
    } else {
        attributes[0].bytes() + all_bytes(attributes.drop_first())
    }
}

/// Whether any of some attributes names an extension.
pub open spec fn any_names(attributes: Seq<Attribute>, unwrap: bool) -> bool {
    exists|i: int| 0 <= i < attributes.len() && (#[trigger] attributes[i]).names(unwrap)
}

/// Whether reading failed behind that many bytes, all of them taken.
pub open spec fn failed(
    o: Outcome<Extensions, HeaderFault>,
    used: nat,
    kind: HeaderFault,
) -> bool {
    o.used == used && (o.result matches Err(f) && f.kind == kind && f.at == used)
}

/// An attribute is read in full, with gaps between all of its tokens and the blanks and
/// comments behind it, and enables exactly the extensions that it names.
pub proof fn law_attributes(a: Attribute, t: Seq<u8>)
    requires
        a.valid(),
    ensures
        grammar::attribute(a.bytes() + t).used == a.bytes().len() + grammar::blank(t),
        alphabet::begins(t) ==> grammar::attribute(a.bytes() + t).used == a.bytes().len(),
        grammar::attribute(a.bytes() + t).result matches Ok(e) && e == set_of(
            a.names(true),
            a.names(false),
        ),
{
    let o = spaced(opening(), a.gaps, 5);
    let names = listed(a.list) + a.last.bytes();
    let end = spaced(closing(), a.ends, 2);
    let s = end + t;
    lemma_closed(a.ends, t);
    words::lemma_begins(t);
    lemma_names(a.list, a.last, s);
    lemma_opened(a.gaps, names + s);
    lemma_stretches(o, listed(a.list), a.last.bytes(), end, t);
}

/// Four stretches of bytes, and what follows them.
proof fn lemma_stretches(a: Seq<u8>, b: Seq<u8>, c: Seq<u8>, d: Seq<u8>, t: Seq<u8>)
    ensures
        (a + (b + (c + d))) + t == a + ((b + c) + (d + t)),
        a + (b + (c + (d + t))) == a + ((b + c) + (d + t)),
        (a + ((b + c) + (d + t))).skip((a.len() + (b + c).len()) as int) == d + t,
        (a + (b + (c + d))).len() == a.len() + (b + c).len() + d.len(),
{
    assert((a + (b + (c + d))) + t =~= a + ((b + c) + (d + t)));
    assert(a + (b + (c + (d + t))) =~= a + ((b + c) + (d + t)));
    assert((a + ((b + c) + (d + t))).skip((a.len() + (b + c).len()) as int) =~= d + t);
}

/// A document enables what any of its attributes names, and nothing else: gaps in front,
/// and any number of attributes, are read up to where neither a blank nor a comment nor
/// another attribute stands. If another attribute is malformed, it fails as that one does.
pub proof fn law_documents(gap: Seq<u8>, attributes: Seq<Attribute>, t: Seq<u8>)
    requires
        alphabet::is_gap(gap),
        forall|i: int| 0 <= i < attributes.len() ==> (#[trigger] attributes[i]).valid(),
        alphabet::begins(t),
    ensures
        ({
            let h = grammar::header(gap + (all_bytes(attributes) + t));
            let n = gap.len() + all_bytes(attributes).len();
            if t.len() == 0 || t[0] != '#' as u8 {
                h.used == n && (h.result matches Ok(e) && e == set_of(
                    any_names(attributes, true),
                    any_names(attributes, false),
                ))
            } else {
                grammar::attribute(t).result matches Err(f) ==> h.used == n + grammar::attribute(
                    t,
                ).used && (h.result matches Err(g) && g.kind == f.kind && g.at == n + f.at)
            }
        }),
{
    let s = all_bytes(attributes) + t;
    lemma_all(attributes, t);
    words::law_gaps_are_skipped(gap, s);
    assert((gap + s).skip(gap.len() as int) =~= s);
    lemma_sets(any_names(attributes, true), any_names(attributes, false), false, false);
}

/// A document may end in a comment behind its attributes.
pub proof fn law_documents_may_end_in_a_comment(
    gap: Seq<u8>,
    attributes: Seq<Attribute>,
    line: Seq<u8>,
)
    requires
        alphabet::is_gap(gap),
        forall|i: int| 0 <= i < attributes.len() ==> (#[trigger] attributes[i]).valid(),
        forall|i: int| 0 <= i < line.len() ==> #[trigger] line[i] != 10,
    ensures
        ({
            let comment = alphabet::comment_mark() + line;
            let h = grammar::header(gap + (all_bytes(attributes) + comment));
            &&& h.used == gap.len() + all_bytes(attributes).len() + comment.len()
            &&& h.result matches Ok(e) && e == set_of(
                any_names(attributes, true),
                any_names(attributes, false),
            )
        }),
{
    let t = alphabet::comment_mark() + line;
    let s = all_bytes(attributes) + t;
    let none = Seq::<u8>::empty();
    words::law_last_comment_is_skipped(gap, line);
    words::law_last_comment_is_skipped(none, line);
    assert(none + t =~= t);
    if attributes.len() == 0 {
        assert(s =~= t);
        assert((gap + t).skip((gap + t).len() as int) =~= none);
    } else {
        lemma_all_then_blank(attributes, t);
        words::law_gaps_are_skipped(gap, s);
        assert((gap + s).skip(gap.len() as int) =~= s);
    }
}

/// An attribute has to be opened by `#`, `!`, `[`, `enable` and `(`, in this order. If it is
/// not, that is reported where the first of them is missing.
pub proof fn law_attributes_are_opened(gaps: Seq<Seq<u8>>, k: nat, t: Seq<u8>)
    requires
        1 <= k < 5,
        are_gaps(gaps, k),
        alphabet::begins(t),
        !alphabet::starts_with(t, opening()[k as int]),
    ensures
        failed(
            grammar::attribute(spaced(opening(), gaps, k) + t),
            spaced(opening(), gaps, k).len(),
            HeaderFault::Syntax(ParseError::ExpectedAttribute),
        ),
{
    reveal(grammar::attribute);
    lemma_vocabulary();
    lemma_spaced(opening(), gaps, k, t);
    words::lemma_begins(t);
    lemma_first(opening(), gaps, k, t);
}

/// An attribute has to name something: a letter or `_` has to stand behind `(`, and no digit
/// behind a comma.
pub proof fn law_attributes_name_something(gaps: Seq<Seq<u8>>, list: Seq<Name>, t: Seq<u8>)
    requires
        are_gaps(gaps, 5),
        are_listed(list),
        alphabet::begins(t),
        list.len() == 0 ==> t.len() == 0 || !alphabet::is_word_start(t[0]),
        list.len() > 0 ==> t.len() > 0 && alphabet::is_decimal(t[0]),
    ensures
        failed(
            grammar::attribute(spaced(opening(), gaps, 5) + (listed(list) + t)),
            spaced(opening(), gaps, 5).len() + listed(list).len(),
            HeaderFault::Syntax(
                if t.len() == 0 {
                    ParseError::Eof
                } else {
                    ParseError::ExpectedIdentifier
                },
            ),
        ),
{
    reveal(grammar::extension_item);
    words::law_identifiers_only(t);
    if list.len() > 0 {
        lemma_listed(list, t);
    } else {
        assert(listed(list) + t =~= t);
    }
    lemma_opened(gaps, listed(list) + t);
}

/// A name that is none of an extension is reported, behind it.
pub proof fn law_unknown_names_are_reported(
    gaps: Seq<Seq<u8>>,
    list: Seq<Name>,
    word: Seq<u8>,
    t: Seq<u8>,
)
    requires
        are_gaps(gaps, 5),
        are_listed(list),
        word.len() > 0,
        alphabet::is_word_start(word[0]),
        forall|i: int| 0 <= i < word.len() ==> alphabet::is_word(#[trigger] word[i]),
        t.len() == 0 || !alphabet::is_word(t[0]),
        word != known_name(true),
        word != known_name(false),
    ensures
        failed(
            grammar::attribute(spaced(opening(), gaps, 5) + (listed(list) + (word + t))),
            spaced(opening(), gaps, 5).len() + listed(list).len() + word.len(),
            HeaderFault::UnknownExtension(word),
        ),
{
    reveal(grammar::extension_item);
    let s = word + t;
    words::law_identifiers(word, t);
    law_known_names(word);
    assert(s[0] == word[0]);
    words::lemma_begins(s);
    if list.len() > 0 {
        lemma_listed(list, s);
    } else {
        assert(listed(list) + s =~= s);
    }
    lemma_opened(gaps, listed(list) + s);
}

/// Between two names there has to be a comma. If there is none, that is reported where the
/// second starts.
pub proof fn law_commas_separate_names(
    gaps: Seq<Seq<u8>>,
    list: Seq<Name>,
    last: Name,
    t: Seq<u8>,
)
    requires
        are_gaps(gaps, 5),
        are_listed(list),
        last.valid(),
        !last.comma,
        last.gap.len() > 0,
        t.len() > 0,
        alphabet::is_word(t[0]),
    ensures
        failed(
            grammar::attribute(spaced(opening(), gaps, 5) + (listed(list) + (last.bytes() + t))),
            spaced(opening(), gaps, 5).len() + listed(list).len() + last.bytes().len(),
            HeaderFault::Syntax(ParseError::ExpectedComma),
        ),
{
    let s = last.bytes() + t;
    words::lemma_begins(t);
    lemma_name(last, t);
    if list.len() > 0 {
        lemma_listed(list, s);
    } else {
        assert(listed(list) + s =~= s);
    }
    lemma_opened(gaps, listed(list) + s);
}

/// An attribute has to be closed by `)` and `]`. If it is not, that is reported where the
/// first of them is missing.
pub proof fn law_attributes_are_closed(
    gaps: Seq<Seq<u8>>,
    list: Seq<Name>,
    last: Name,
    ends: Seq<Seq<u8>>,
    k: nat,
    t: Seq<u8>,
)
    requires
        are_gaps(gaps, 5),
        are_listed(list),
        last.valid(),
        k < 2,
        are_gaps(ends, k),
        alphabet::begins(t),
        !alphabet::starts_with(t, closing()[k as int]),
        k == 0 && t.len() > 0 ==> !alphabet::is_word(t[0]) && (t[0] == ',' as u8 ==> last.comma),
    ensures
        failed(
            grammar::attribute(
                spaced(opening(), gaps, 5) + (listed(list) + (last.bytes() + (spaced(
                    closing(),
                    ends,
                    k,
                ) + t))),
            ),
            spaced(opening(), gaps, 5).len() + listed(list).len() + last.bytes().len() + spaced(
                closing(),
                ends,
                k,
            ).len(),
            HeaderFault::Syntax(ParseError::ExpectedAttributeEnd),
        ),
{
    let s = spaced(closing(), ends, k) + t;
    lemma_unclosed(ends, k, t);
    lemma_names(list, last, s);
    let o = spaced(opening(), gaps, 5);
    let names = listed(list) + last.bytes();
    lemma_opened(gaps, names + s);
    lemma_stretches(o, listed(list), last.bytes(), spaced(closing(), ends, k), t);
}

proof fn lemma_closed(ends: Seq<Seq<u8>>, t: Seq<u8>)
    requires
        are_gaps(ends, 2),
    ensures
        grammar::tokens(spaced(closing(), ends, 2) + t, closing()) == (
            spaced(closing(), ends, 2).len() + grammar::blank(t),
            true,
        ),
        alphabet::begins(spaced(closing(), ends, 2) + t),
        (spaced(closing(), ends, 2) + t).len() > 0,
        (spaced(closing(), ends, 2) + t)[0] == ')' as u8,
{
    lemma_vocabulary();
    lemma_spaced(closing(), ends, 2, t);
    lemma_first(closing(), ends, 2, t);
}

proof fn lemma_unclosed(ends: Seq<Seq<u8>>, k: nat, t: Seq<u8>)
    requires
        k < 2,
        are_gaps(ends, k),
        alphabet::begins(t),
        !alphabet::starts_with(t, closing()[k as int]),
    ensures
        grammar::tokens(spaced(closing(), ends, k) + t, closing()) == (
            spaced(closing(), ends, k).len(),
            false,
        ),
        alphabet::begins(spaced(closing(), ends, k) + t),
        k == 0 ==> spaced(closing(), ends, k) + t == t,
        k > 0 ==> (spaced(closing(), ends, k) + t)[0] == ')' as u8,
{
    lemma_vocabulary();
    lemma_spaced(closing(), ends, k, t);
    words::lemma_begins(t);
    if k > 0 {
        lemma_first(closing(), ends, k, t);
    } else {
        assert(spaced(closing(), ends, k) + t =~= t);
    }
}

/// A name in an attribute is an identifier, with the comma behind it if there is one, and
/// another name may follow a comma only. Whatever the identifier fails with, it fails with.
pub proof fn law_items(s: Seq<u8>)
    ensures
        ({
            let word = grammar::identifier(s);
            let item = grammar::extension_item(s);
            match word.result {
                Err(f) => item.used == word.used && (item.result matches Err(g) && g.kind
                    == HeaderFault::Syntax(f.kind) && g.at == word.used),
                Ok(name) => {
                    let (m, separated) = grammar::comma(s.skip(name.len() as int));
                    let n = name.len() + m;
                    let more = n < s.len() && alphabet::is_word(s[n as int]);
                    if name != known_name(true) && name != known_name(false) {
                        item.used == name.len() && (item.result matches Err(g) && g.kind
                            == HeaderFault::UnknownExtension(name) && g.at == name.len())
                    } else if more && !separated {
                        item.used == n && (item.result matches Err(g) && g.kind
                            == HeaderFault::Syntax(ParseError::ExpectedComma) && g.at == n)
                    } else {
                        item.used == n && (item.result matches Ok((e, another)) && e == set_of(
                            name == known_name(true),
                            name == known_name(false),
                        ) && another == more)
                    }
                },
            }
        }),
{
    reveal(grammar::extension_item);
    words::law_identifiers_only(s);
    lemma_known_names();
    if let Ok(name) = grammar::identifier(s).result {
        law_known_names(name);
    }
}

/// Names are read one by one as long as another follows, and enable what any of them does.
pub proof fn law_lists(s: Seq<u8>)
    ensures
        ({
            let item = grammar::extension_item(s);
            let others = grammar::extension_names(s.skip(item.used as int));
            let all = grammar::extension_names(s);
            match item.result {
                Err(f) => all.used == item.used && (all.result matches Err(g) && g == f),
                Ok((e, more)) => if !more {
                    all.used == item.used && (all.result matches Ok(x) && x == e)
                } else {
                    all.used == item.used + others.used && match others.result {
                        Ok(o) => all.result matches Ok(x) && x.bits == e.bits | o.bits,
                        Err(f) => all.result matches Err(g) && g.kind == f.kind && g.at == item.used
                            + f.at,
                    }
                },
            }
        }),
{
    grammar::lemma_extension_item(s);
}

/// An attribute is what stands between the tokens that open it and those that close it;
/// where no `#` stands, there is none and nothing is enabled.
pub proof fn law_brackets(s: Seq<u8>)
    ensures
        ({
            let a = grammar::attribute(s);
            let (n, opened) = grammar::tokens(s, opening());
            let names = grammar::extension_names(s.skip(n as int));
            let m = n + names.used;
            let (k, closed) = grammar::tokens(s.skip(m as int), closing());
            if s.len() == 0 || s[0] != '#' as u8 {
                a.used == 0 && (a.result matches Ok(e) && e == set_of(false, false))
            } else if !opened {
                failed(a, n, HeaderFault::Syntax(ParseError::ExpectedAttribute))
            } else {
                match names.result {
                    Err(f) => a.used == m && (a.result matches Err(g) && g.kind == f.kind && g.at == n
                        + f.at),
                    Ok(e) => if closed {
                        a.used == m + k && (a.result matches Ok(x) && x == e)
                    } else {
                        failed(a, m + k, HeaderFault::Syntax(ParseError::ExpectedAttributeEnd))
                    },
                }
            }
        }),
{
    reveal(grammar::attribute);
    lemma_vocabulary();
}

proof fn lemma_known_names()
    ensures
        known_name(true) == extensions::unwrap_newtypes_name(),
        known_name(false) == extensions::implicit_some_name(),
        known_name(true) != known_name(false),
        forall|u: bool, i: int|
            0 <= i < known_name(u).len() ==> alphabet::is_word(#[trigger] known_name(u)[i]),
        forall|u: bool| (#[trigger] known_name(u)).len() > 0 && alphabet::is_word_start(known_name(u)[0]),
{
    reveal_strlit("unwrap_newtypes");
    reveal_strlit("implicit_some");
    let (a, b) = (extensions::unwrap_newtypes_name(), extensions::implicit_some_name());
    assert(known_name(true) =~= a);
    assert(known_name(false) =~= b);
    assert(a.len() != b.len());
    assert forall|u: bool, i: int| 0 <= i < known_name(u).len() implies alphabet::is_word(
        #[trigger] known_name(u)[i],
    ) by {
        if u {
            assert(alphabet::is_word(a[i]));
        } else {
            assert(alphabet::is_word(b[i]));
        }
    }
}

proof fn lemma_vocabulary()
    ensures
        opening() == grammar::attribute_start(),
        closing() == grammar::attribute_end(),
        are_marks(opening()),
        are_marks(closing()),
{
    let o = opening();
    let c = closing();
    assert(o[3] =~= grammar::enable_word());
    assert(o =~= grammar::attribute_start());
    assert(c =~= grammar::attribute_end());
}

/// Whether no token can be taken for a blank or a comment.
spec fn are_marks(all: Seq<Seq<u8>>) -> bool {
    forall|i: int|
        0 <= i < all.len() ==> (#[trigger] all[i]).len() > 0 && !alphabet::is_blank(all[i][0])
            && all[i][0] != '/' as u8
}

proof fn lemma_first(all: Seq<Seq<u8>>, gaps: Seq<Seq<u8>>, k: nat, t: Seq<u8>)
    requires
        0 < k <= all.len(),
        are_marks(all),
    ensures
        (spaced(all, gaps, k) + t).len() > 0,
        (spaced(all, gaps, k) + t)[0] == all[0][0],
        alphabet::begins(spaced(all, gaps, k) + t),
{
    assert(all[0].len() > 0);
    words::lemma_begins(spaced(all, gaps, k) + t);
}

proof fn lemma_spaced(all: Seq<Seq<u8>>, gaps: Seq<Seq<u8>>, k: nat, t: Seq<u8>)
    requires
        k <= all.len(),
        are_marks(all),
        are_gaps(gaps, k),
        k < all.len() ==> alphabet::begins(t) && !alphabet::starts_with(t, all[k as int]),
    ensures
        grammar::tokens(spaced(all, gaps, k) + t, all) == (
            spaced(all, gaps, k).len() + if k > 0 {
                grammar::blank(t)
            } else {
                0
            },
            k == all.len(),
        ),
    decreases k,
{
    if k == 0 {
        assert(spaced(all, gaps, k) + t =~= t);
        if all.len() > 0 {
            words::lemma_prefix(t, all[0]);
        }
    } else {
        let (others, later) = (all.drop_first(), gaps.drop_first());
        let j = (k - 1) as nat;
        let u = spaced(others, later, j) + t;
        lemma_spaced_first(all, gaps, k, t);
        lemma_spaced(others, later, j, t);
        lemma_one_token(all, gaps[0], u);
        words::lemma_begins(t);
        let from = u.skip(grammar::blank(u) as int);
        if j > 0 {
            lemma_first(others, later, j, t);
            words::lemma_begins(u);
            assert(from =~= u);
        } else {
            assert(u =~= t);
            if k < all.len() {
                assert(from =~= t);
            }
        }
        assert(grammar::tokens(from, others).1 == (k == all.len()));
    }
}

/// The first of some tokens with their gaps, and the others.
proof fn lemma_spaced_first(all: Seq<Seq<u8>>, gaps: Seq<Seq<u8>>, k: nat, t: Seq<u8>)
    requires
        0 < k <= all.len(),
        are_marks(all),
        are_gaps(gaps, k),
    ensures
        are_marks(all.drop_first()),
        are_gaps(gaps.drop_first(), (k - 1) as nat),
        alphabet::is_gap(gaps[0]),
        k < all.len() ==> all.drop_first()[k - 1] == all[k as int],
        spaced(all, gaps, k) + t == all[0] + (gaps[0] + (spaced(
            all.drop_first(),
            gaps.drop_first(),
            (k - 1) as nat,
        ) + t)),
        spaced(all, gaps, k).len() == all[0].len() + gaps[0].len() + spaced(
            all.drop_first(),
            gaps.drop_first(),
            (k - 1) as nat,
        ).len(),
{
    let (others, later) = (all.drop_first(), gaps.drop_first());
    assert forall|i: int| 0 <= i < others.len() implies (#[trigger] others[i]).len() > 0
        && !alphabet::is_blank(others[i][0]) && others[i][0] != '/' as u8 by {
        assert(others[i] == all[i + 1]);
    }
    assert forall|i: int| 0 <= i < k - 1 implies alphabet::is_gap(#[trigger] later[i]) by {
        assert(later[i] == gaps[i + 1]);
    }
    assert(spaced(all, gaps, k) + t =~= all[0] + (gaps[0] + (spaced(others, later, (k - 1) as nat)
        + t)));
}

/// A token and its gap are taken, and the tokens behind them from there on.
proof fn lemma_one_token(all: Seq<Seq<u8>>, gap: Seq<u8>, u: Seq<u8>)
    requires
        all.len() > 0,
        alphabet::is_gap(gap),
    ensures
        ({
            let others = grammar::tokens(u.skip(grammar::blank(u) as int), all.drop_first());
            grammar::tokens(all[0] + (gap + u), all) == (
                all[0].len() + gap.len() + grammar::blank(u) + others.0,
                others.1,
            )
        }),
{
    let s = all[0] + (gap + u);
    let n = all[0].len();
    let m = n + gap.len() + grammar::blank(u);
    words::law_gaps_are_skipped(gap, u);
    grammar::lemma_blank(u);
    assert(s.subrange(0, n as int) =~= all[0]);
    assert(s.skip(n as int) =~= gap + u);
    assert(s.skip(m as int) =~= u.skip(grammar::blank(u) as int));
}

proof fn lemma_opened(gaps: Seq<Seq<u8>>, s: Seq<u8>)
    requires
        are_gaps(gaps, 5),
        alphabet::begins(s),
    ensures
        ({
            let o = spaced(opening(), gaps, 5);
            let names = grammar::extension_names(s);
            let a = grammar::attribute(o + s);
            match names.result {
                Err(_) => a == names.behind(o.len()),
                Ok(e) => {
                    let (k, closed) = grammar::tokens(
                        (o + s).skip((o.len() + names.used) as int),
                        closing(),
                    );
                    &&& a.used == o.len() + names.used + k
                    &&& closed ==> (a.result matches Ok(x) && x == e)
                    &&& !closed ==> failed(
                        a,
                        a.used,
                        HeaderFault::Syntax(ParseError::ExpectedAttributeEnd),
                    )
                },
            }
        }),
{
    reveal(grammar::attribute);
    let o = spaced(opening(), gaps, 5);
    lemma_vocabulary();
    lemma_spaced(opening(), gaps, 5, s);
    words::lemma_begins(s);
    lemma_first(opening(), gaps, 5, s);
    assert((o + s).skip(o.len() as int) =~= s);
}

proof fn lemma_gap_start(gap: Seq<u8>)
    requires
        alphabet::is_gap(gap),
        gap.len() > 0,
    ensures
        !alphabet::is_word(gap[0]),
{
    if !alphabet::is_blank(gap[0]) {
        assert(gap[0] == alphabet::comment_mark()[0]);
    }
}

/// What stands behind a name: its gap, and its comma with the gap behind that.
spec fn behind_name(n: Name) -> Seq<u8> {
    n.gap + if n.comma {
        seq![',' as u8] + n.after
    } else {
        Seq::empty()
    }
}

proof fn lemma_behind_name(n: Name, s: Seq<u8>)
    requires
        n.valid(),
        alphabet::begins(s),
        !n.comma ==> s.len() == 0 || s[0] != ',' as u8,
        !n.comma && n.gap.len() == 0 ==> s.len() == 0 || !alphabet::is_word(s[0]),
    ensures
        grammar::comma(behind_name(n) + s) == (behind_name(n).len(), n.comma),
        (behind_name(n) + s).len() == 0 || !alphabet::is_word((behind_name(n) + s)[0]),
{
    let rest = behind_name(n) + s;
    if n.gap.len() > 0 {
        lemma_gap_start(n.gap);
        assert(rest[0] == n.gap[0]);
    }
    if n.comma {
        let t = n.after + s;
        assert(rest =~= n.gap + (seq![',' as u8] + t));
        words::law_commas(n.gap, t);
        words::law_gaps_are_skipped(n.after, s);
        if n.gap.len() == 0 {
            assert(rest[0] == ',' as u8);
        }
    } else {
        assert(rest =~= n.gap + s);
        words::law_commas(n.gap, s);
        if n.gap.len() == 0 {
            assert(rest =~= s);
        }
    }
}

proof fn lemma_known_name(u: bool, rest: Seq<u8>)
    requires
        rest.len() == 0 || !alphabet::is_word(rest[0]),
    ensures
        grammar::identifier(known_name(u) + rest) == Outcome::<Seq<u8>, ParseError>::value(
            known_name(u).len(),
            known_name(u),
        ),
        Extensions::named(known_name(u)) == Some(set_of(u, !u)),
        (known_name(u) + rest).len() > 0,
        alphabet::is_word((known_name(u) + rest)[0]),
        alphabet::begins(known_name(u) + rest),
{
    let name = known_name(u);
    lemma_known_names();
    law_known_names(name);
    words::law_identifiers(name, rest);
    assert((name + rest)[0] == name[0]);
    assert(alphabet::is_word(known_name(u)[0]));
    words::lemma_begins(name + rest);
}

proof fn lemma_name(n: Name, s: Seq<u8>)
    requires
        n.valid(),
        alphabet::begins(s),
        !n.comma ==> s.len() == 0 || s[0] != ',' as u8,
        !n.comma && n.gap.len() == 0 ==> s.len() == 0 || !alphabet::is_word(s[0]),
    ensures
        ({
            let item = grammar::extension_item(n.bytes() + s);
            let more = s.len() > 0 && alphabet::is_word(s[0]);
            if more && !n.comma {
                item == Outcome::<(Extensions, bool), HeaderFault>::fault(
                    n.bytes().len(),
                    HeaderFault::Syntax(ParseError::ExpectedComma),
                )
            } else {
                item == Outcome::<(Extensions, bool), HeaderFault>::value(
                    n.bytes().len(),
                    (set_of(n.unwrap, !n.unwrap), more),
                )
            }
        }),
        (n.bytes() + s).len() > 0,
        alphabet::is_word((n.bytes() + s)[0]),
        alphabet::begins(n.bytes() + s),
{
    let name = known_name(n.unwrap);
    let rest = behind_name(n) + s;
    let q = name + rest;
    assert(n.bytes() + s =~= q);
    assert(n.bytes().len() == name.len() + behind_name(n).len());
    lemma_behind_name(n, s);
    lemma_known_name(n.unwrap, rest);
    assert(q.skip(name.len() as int) =~= rest);
    if s.len() > 0 {
        assert(q[n.bytes().len() as int] == s[0]);
    }
    lemma_item_is(q, name, set_of(n.unwrap, !n.unwrap), behind_name(n).len(), n.comma);
}

/// What an item is, from its name and its comma.
proof fn lemma_item_is(q: Seq<u8>, name: Seq<u8>, e: Extensions, m: nat, separated: bool)
    requires
        grammar::identifier(q) == Outcome::<Seq<u8>, ParseError>::value(name.len(), name),
        Extensions::named(name) == Some(e),
        grammar::comma(q.skip(name.len() as int)) == (m, separated),
    ensures
        ({
            let n = name.len() + m;
            let more = n < q.len() && alphabet::is_word(q[n as int]);
            grammar::extension_item(q) == if more && !separated {
                Outcome::<(Extensions, bool), HeaderFault>::fault(
                    n,
                    HeaderFault::Syntax(ParseError::ExpectedComma),
                )
            } else {
                Outcome::<(Extensions, bool), HeaderFault>::value(n, (e, more))
            }
        }),
{
    reveal(grammar::extension_item);
}

proof fn lemma_sets(a: bool, b: bool, c: bool, d: bool)
    ensures
        set_of(a, b).or(set_of(c, d)) == set_of(a || c, b || d),
{
    assert(0usize | 0 == 0 && 0usize | 1 == 1 && 0usize | 2 == 2 && 0usize | 3 == 3 && 1usize | 0
        == 1 && 1usize | 1 == 1 && 1usize | 2 == 3 && 1usize | 3 == 3 && 2usize | 0 == 2 && 2usize
        | 1 == 3 && 2usize | 2 == 2 && 2usize | 3 == 3 && 3usize | 0 == 3 && 3usize | 1 == 3
        && 3usize | 2 == 3 && 3usize | 3 == 3) by (bit_vector);
}

proof fn lemma_mentions(list: Seq<Name>, u: bool)
    requires
        list.len() > 0,
    ensures
        mentions(list, u) == (list[0].unwrap == u || mentions(list.drop_first(), u)),
{
    let rest = list.drop_first();
    if mentions(list, u) {
        let i = choose|i: int| 0 <= i < list.len() && (#[trigger] list[i]).unwrap == u;
        if i > 0 {
            assert(rest[i - 1].unwrap == u);
        }
    }
    if mentions(rest, u) {
        let i = choose|i: int| 0 <= i < rest.len() && (#[trigger] rest[i]).unwrap == u;
        assert(list[i + 1].unwrap == u);
    }
    if list[0].unwrap == u {
        assert(mentions(list, u));
    }
}

proof fn lemma_listed(list: Seq<Name>, s: Seq<u8>)
    requires
        list.len() > 0,
        are_listed(list),
        alphabet::begins(s),
        s.len() > 0,
        alphabet::is_word(s[0]),
    ensures
        grammar::extension_names(listed(list) + s) == grammar::joined(
            set_of(mentions(list, true), mentions(list, false)),
            listed(list).len(),
            grammar::extension_names(s),
        ),
        alphabet::is_word((listed(list) + s)[0]),
        alphabet::begins(listed(list) + s),
    decreases list.len(),
{
    let n = list[0];
    let rest = list.drop_first();
    let u = listed(rest) + s;
    let q = listed(list) + s;
    assert(n.valid() && n.comma);
    assert forall|i: int| 0 <= i < rest.len() implies (#[trigger] rest[i]).valid()
        && rest[i].comma by {
        assert(rest[i] == list[i + 1]);
    }
    if rest.len() > 0 {
        lemma_listed(rest, s);
    } else {
        assert(u =~= s);
    }
    assert(q =~= n.bytes() + u);
    lemma_name(n, u);
    assert(q.skip(n.bytes().len() as int) =~= u);
    lemma_mentions(list, true);
    lemma_mentions(list, false);
    let e = set_of(n.unwrap, !n.unwrap);
    if rest.len() > 0 {
        let (a, b) = (mentions(rest, true), mentions(rest, false));
        grammar::lemma_joined(
            e,
            n.bytes().len(),
            set_of(a, b),
            listed(rest).len(),
            grammar::extension_names(s),
        );
        lemma_sets(n.unwrap, !n.unwrap, a, b);
    }
}

proof fn lemma_names(list: Seq<Name>, last: Name, s: Seq<u8>)
    requires
        are_listed(list),
        last.valid(),
        alphabet::begins(s),
        s.len() > 0 ==> !alphabet::is_word(s[0]) && (s[0] == ',' as u8 ==> last.comma),
    ensures
        ({
            let names = listed(list) + last.bytes();
            let o = grammar::extension_names(names + s);
            &&& o.used == names.len()
            &&& o.result matches Ok(e) && e == set_of(
                mentions(list, true) || last.unwrap,
                mentions(list, false) || !last.unwrap,
            )
            &&& alphabet::begins(names + s)
        }),
{
    let names = listed(list) + last.bytes();
    let t = last.bytes() + s;
    lemma_name(last, s);
    assert(names + s =~= listed(list) + t);
    if list.len() > 0 {
        lemma_listed(list, t);
        lemma_sets(mentions(list, true), mentions(list, false), last.unwrap, !last.unwrap);
    } else {
        assert(names + s =~= t);
    }
}

proof fn lemma_any(attributes: Seq<Attribute>, u: bool)
    requires
        attributes.len() > 0,
    ensures
        any_names(attributes, u) == (attributes[0].names(u) || any_names(
            attributes.drop_first(),
            u,
        )),
{
    let rest = attributes.drop_first();
    if any_names(attributes, u) {
        let i = choose|i: int|
            0 <= i < attributes.len() && (#[trigger] attributes[i]).names(u);
        if i > 0 {
            assert(rest[i - 1].names(u));
        }
    }
    if any_names(rest, u) {
        let i = choose|i: int| 0 <= i < rest.len() && (#[trigger] rest[i]).names(u);
        assert(attributes[i + 1].names(u));
    }
    if attributes[0].names(u) {
        assert(any_names(attributes, u));
    }
}

proof fn lemma_all(attributes: Seq<Attribute>, t: Seq<u8>)
    requires
        forall|i: int| 0 <= i < attributes.len() ==> (#[trigger] attributes[i]).valid(),
        alphabet::begins(t),
    ensures
        grammar::attributes(all_bytes(attributes) + t) == grammar::joined(
            set_of(any_names(attributes, true), any_names(attributes, false)),
            all_bytes(attributes).len(),
            grammar::attributes(t),
        ),
        alphabet::begins(all_bytes(attributes) + t),
    decreases attributes.len(),
{
    let q = all_bytes(attributes) + t;
    if attributes.len() == 0 {
        assert(q =~= t);
        grammar::lemma_joined_none(grammar::attributes(t), 0);
    } else {
        let a = attributes[0];
        let rest = attributes.drop_first();
        let u = all_bytes(rest) + t;
        assert(a.valid());
        assert forall|i: int| 0 <= i < rest.len() implies (#[trigger] rest[i]).valid() by {
            assert(rest[i] == attributes[i + 1]);
        }
        lemma_all(rest, t);
        law_attributes(a, u);
        assert(q =~= a.bytes() + u);
        assert(q.skip(a.bytes().len() as int) =~= u);
        lemma_attribute_start(a, u);
        lemma_any(attributes, true);
        lemma_any(attributes, false);
        let (c, d) = (any_names(rest, true), any_names(rest, false));
        grammar::lemma_joined(
            set_of(a.names(true), a.names(false)),
            a.bytes().len(),
            set_of(c, d),
            all_bytes(rest).len(),
            grammar::attributes(t),
        );
        lemma_sets(a.names(true), a.names(false), c, d);
    }
}

proof fn lemma_attribute_start(a: Attribute, u: Seq<u8>)
    ensures
        (a.bytes() + u).len() > 0,
        (a.bytes() + u)[0] == '#' as u8,
        alphabet::begins(a.bytes() + u),
{
    let o = spaced(opening(), a.gaps, 5);
    let more = listed(a.list) + (a.last.bytes() + spaced(closing(), a.ends, 2)) + u;
    lemma_vocabulary();
    lemma_first(opening(), a.gaps, 5, more);
    assert(a.bytes() + u =~= o + more);
}

proof fn lemma_all_then_blank(attributes: Seq<Attribute>, t: Seq<u8>)
    requires
        attributes.len() > 0,
        forall|i: int| 0 <= i < attributes.len() ==> (#[trigger] attributes[i]).valid(),
        grammar::blank(t) == t.len(),
    ensures
        grammar::attributes(all_bytes(attributes) + t) == Outcome::<Extensions, HeaderFault>::value(
            all_bytes(attributes).len() + t.len(),
            set_of(any_names(attributes, true), any_names(attributes, false)),
        ),
        alphabet::begins(all_bytes(attributes) + t),
    decreases attributes.len(),
{
    let q = all_bytes(attributes) + t;
    let a = attributes[0];
    let rest = attributes.drop_first();
    let u = all_bytes(rest) + t;
    assert(a.valid());
    assert forall|i: int| 0 <= i < rest.len() implies (#[trigger] rest[i]).valid() by {
        assert(rest[i] == attributes[i + 1]);
    }
    law_attributes(a, u);
    lemma_attribute_start(a, u);
    assert(q =~= a.bytes() + u);
    lemma_any(attributes, true);
    lemma_any(attributes, false);
    assert(all_bytes(attributes).len() == a.bytes().len() + all_bytes(rest).len());
    if rest.len() > 0 {
        lemma_all_then_blank(rest, t);
        words::lemma_begins(u);
        assert(q.skip(a.bytes().len() as int) =~= u);
        lemma_sets(a.names(true), a.names(false), any_names(rest, true), any_names(rest, false));
    } else {
        assert(u =~= t);
        let end = q.skip(q.len() as int);
        assert(end =~= Seq::<u8>::empty());
        assert(grammar::attributes(end) == Outcome::<Extensions, HeaderFault>::value(
            0,
            set_of(false, false),
        ));
        lemma_sets(a.names(true), a.names(false), false, false);
        assert(!any_names(rest, true) && !any_names(rest, false));
    }
}

} // verus!
