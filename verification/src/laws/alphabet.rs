//! The alphabet of the notation, byte by byte, and what digits write. The laws are stated
//! in these terms.

use crate::extensions;
use crate::grammar;
use crate::grammar::ByteClass;
use crate::num;
use crate::position;
use vstd::arithmetic::power::*;
use vstd::prelude::*;

verus! {

/// `0` to `9`.
pub open spec fn is_decimal(b: u8) -> bool {
    '0' as u8 <= b <= '9' as u8
}

/// `A` to `Z` and `a` to `z`.
pub open spec fn is_letter(b: u8) -> bool {
    ('A' as u8 <= b <= 'Z' as u8) || ('a' as u8 <= b <= 'z' as u8)
}

/// What a word starts with: a letter or `_`.
pub open spec fn is_word_start(b: u8) -> bool {
    is_letter(b) || b == '_' as u8
}

/// What a word is made of: letters, `_` and digits.
pub open spec fn is_word(b: u8) -> bool {
    is_word_start(b) || is_decimal(b)
}

/// `0` to `9`, `A` to `F` and `a` to `f`.
pub open spec fn is_hex(b: u8) -> bool {
    is_decimal(b) || ('A' as u8 <= b <= 'F' as u8) || ('a' as u8 <= b <= 'f' as u8)
}

/// Digits, a point, signs, and the mark of an exponent.
pub open spec fn is_float(b: u8) -> bool {
    is_decimal(b) || b == '.' as u8 || b == '+' as u8 || b == '-' as u8 || b == 'e' as u8 || b
        == 'E' as u8
}

/// A line feed, a tab, a carriage return or a space.
pub open spec fn is_blank(b: u8) -> bool {
    b == 10 || b == 9 || b == 13 || b == 32
}

/// Two slashes.
pub open spec fn comment_mark() -> Seq<u8> {
    seq!['/' as u8, '/' as u8]
}

/// Whether the bytes start with these.
pub open spec fn starts_with(s: Seq<u8>, p: Seq<u8>) -> bool {
    p.len() <= s.len() && forall|i: int| 0 <= i < p.len() ==> s[i] == #[trigger] p[i]
}

/// How many bytes stand in front of the first line feed.
pub open spec fn line_end(s: Seq<u8>) -> nat
    decreases s.len(),
{
    if s.len() == 0 || s[0] == 10 {
        0
    } else {
        1 + line_end(s.drop_first())
    }
}

/// Whether the bytes are nothing but blanks and comments, each comment with a line feed
/// behind it.
pub open spec fn is_gap(w: Seq<u8>) -> bool
    decreases w.len(),
{
    if w.len() == 0 {
        true
    } else if is_blank(w[0]) {
        is_gap(w.drop_first())
    } else {
        &&& starts_with(w, comment_mark())
        &&& 0 < line_end(w) < w.len()
        &&& is_gap(w.skip(line_end(w) as int))
    }
}

/// Whether neither a blank nor a comment stands in front.
pub open spec fn begins(t: Seq<u8>) -> bool {
    t.len() == 0 || !(is_blank(t[0]) || starts_with(t, comment_mark()))
}

/// What a digit is worth; a byte that is none of any base is worth 36.
pub open spec fn worth(b: u8) -> nat {
    if is_decimal(b) {
        (b - '0' as u8) as nat
    } else if 'A' as u8 <= b <= 'Z' as u8 {
        (10 + (b - 'A' as u8)) as nat
    } else if 'a' as u8 <= b <= 'z' as u8 {
        (10 + (b - 'a' as u8)) as nat
    } else {
        36
    }
}

/// Whether all of these are digits of the base.
pub open spec fn digits_of(digits: Seq<u8>, base: nat) -> bool {
    forall|i: int| 0 <= i < digits.len() ==> worth(#[trigger] digits[i]) < base
}

/// What digits write in positional notation: each counts as often as the power of the base
/// that its place stands for.
pub open spec fn positional(digits: Seq<u8>, base: nat) -> nat
    decreases digits.len(),
{
    if digits.len() == 0 {
        0
    } else {
        worth(digits[0]) * (pow(base as int, (digits.len() - 1) as nat) as nat) + positional(
            digits.drop_first(),
            base,
        )
    }
}

/// The characters as bytes.
pub open spec fn as_bytes(text: Seq<char>) -> Seq<u8> {
    Seq::new(text.len(), |i: int| text[i] as u8)
}

/// The sets of bytes that are scanned over hold exactly these bytes.
pub proof fn law_byte_classes(b: u8)
    ensures
        ByteClass::Digit.has(b) <==> is_hex(b),
        ByteClass::FloatChar.has(b) <==> is_float(b),
        ByteClass::IdentFirst.has(b) <==> is_word_start(b),
        ByteClass::IdentChar.has(b) <==> is_word(b),
        ByteClass::WhiteSpace.has(b) <==> is_blank(b),
        ByteClass::Line.has(b) <==> b != 10,
        ByteClass::CharBody.has(b) <==> b != 39,
        ByteClass::StringBody.has(b) <==> b != 34 && b != 92,
{
}

/// A run is the longest beginning of the input that is made of bytes of the class.
pub proof fn law_runs(s: Seq<u8>, class: ByteClass, k: nat)
    requires
        k <= s.len(),
        forall|i: int| 0 <= i < k ==> class.has(#[trigger] s[i]),
        k < s.len() ==> !class.has(s[k as int]),
    ensures
        grammar::run(s, class) == k,
{
    grammar::lemma_run_is(s, class, k);
}

proof fn lemma_positional_push(digits: Seq<u8>, b: u8, base: nat)
    requires
        base > 0,
    ensures
        positional(digits.push(b), base) == positional(digits, base) * base + worth(b),
    decreases digits.len(),
{
    let longer = digits.push(b);
    if digits.len() == 0 {
        lemma_pow0(base as int);
        assert(longer.drop_first() =~= Seq::<u8>::empty());
        assert(longer[0] == b);
        reveal_with_fuel(positional, 2);
        let (d, p) = (worth(b), pow(base as int, 0) as nat);
        assert(d * p == d) by (nonlinear_arith)
            requires
                p == 1,
        ;
        assert(positional(digits, base) * base == 0) by (nonlinear_arith)
            requires
                positional(digits, base) == 0,
        ;
    } else {
        let k = (digits.len() - 1) as nat;
        let rest = digits.drop_first();
        assert(longer.drop_first() =~= rest.push(b));
        lemma_positional_push(rest, b, base);
        lemma_pow_positive(base as int, k);
        lemma_pow_positive(base as int, k + 1);
        let d = worth(digits[0]);
        let p = pow(base as int, k) as nat;
        let q = pow(base as int, k + 1) as nat;
        assert(q == base * p) by {
            reveal(pow);
        }
        let r = positional(rest, base);
        assert(longer[0] == digits[0]);
        assert(positional(longer, base) == d * q + positional(rest.push(b), base));
        assert(positional(digits, base) == d * p + r);
        assert(d * (base * p) + (r * base + worth(b)) == (d * p + r) * base + worth(b))
            by (nonlinear_arith);
    }
}

/// The number that is read off digits is what they write in positional notation.
pub proof fn law_digits_are_positional(digits: Seq<u8>, base: nat)
    requires
        base > 0,
    ensures
        num::digits_value(digits, base) == positional(digits, base),
    decreases digits.len(),
{
    if digits.len() > 0 {
        law_digits_are_positional(digits.drop_last(), base);
        lemma_positional_push(digits.drop_last(), digits.last(), base);
        assert(digits.drop_last().push(digits.last()) =~= digits);
        assert(num::digit_value(digits.last()) == worth(digits.last()));
    }
}

/// A number is natural in a base exactly if it is written in digits of that base, at least
/// one.
pub proof fn law_naturals(digits: Seq<u8>, base: nat)
    requires
        base > 0,
    ensures
        num::natural(digits, base) == if digits.len() > 0 && digits_of(digits, base) {
            Some(positional(digits, base))
        } else {
            None
        },
{
    law_digits_are_positional(digits, base);
    assert forall|i: int| 0 <= i < digits.len() implies num::digit_value(#[trigger] digits[i])
        == worth(digits[i]) by {}
    if digits_of(digits, base) && digits.len() > 0 {
        assert(num::all_digits(digits, base));
    }
    if num::all_digits(digits, base) {
        assert(digits_of(digits, base));
    }
}

/// The text of a number in decimal: digits of base ten that write it, with no `0` in front
/// but for the number 0 itself.
pub proof fn law_decimal_texts(n: nat)
    ensures
        position::decimal(n).len() > 0,
        forall|i: int|
            0 <= i < position::decimal(n).len() ==> '0' <= #[trigger] position::decimal(n)[i]
                <= '9',
        positional(as_bytes(position::decimal(n)), 10) == n,
        position::decimal(n)[0] == '0' ==> n == 0,
    decreases n,
{
    let t = position::decimal(n);
    let w = as_bytes(t);
    let d = (n % 10) as nat;
    let c = position::digit(d);
    assert(c as u32 == 48 + d);
    if n < 10 {
        assert(w =~= Seq::<u8>::empty().push(c as u8));
        lemma_positional_push(Seq::<u8>::empty(), c as u8, 10);
    } else {
        let u = position::decimal(n / 10);
        law_decimal_texts(n / 10);
        assert(w =~= as_bytes(u).push(c as u8));
        lemma_positional_push(as_bytes(u), c as u8, 10);
        assert(t[0] == u[0]);
    }
}

/// The text of a number in hexadecimal: digits of base sixteen in lower case that write it,
/// with no `0` in front but for the number 0 itself.
pub proof fn law_hexadecimal_texts(n: nat)
    ensures
        extensions::hexadecimal(n).len() > 0,
        forall|i: int|
            0 <= i < extensions::hexadecimal(n).len() ==> ('0'
                <= #[trigger] extensions::hexadecimal(n)[i] <= '9' || 'a'
                <= extensions::hexadecimal(n)[i] <= 'f'),
        positional(as_bytes(extensions::hexadecimal(n)), 16) == n,
        extensions::hexadecimal(n)[0] == '0' ==> n == 0,
    decreases n,
{
    let t = extensions::hexadecimal(n);
    let w = as_bytes(t);
    let d = (n % 16) as nat;
    let c = extensions::hex_digit(d);
    assert(d < 10 ==> c as u32 == 48 + d);
    assert(d >= 10 ==> c as u32 == 87 + d);
    if n < 16 {
        assert(w =~= Seq::<u8>::empty().push(c as u8));
        lemma_positional_push(Seq::<u8>::empty(), c as u8, 16);
    } else {
        let u = extensions::hexadecimal(n / 16);
        law_hexadecimal_texts(n / 16);
        assert(w =~= as_bytes(u).push(c as u8));
        lemma_positional_push(as_bytes(u), c as u8, 16);
        assert(t[0] == u[0]);
    }
}

} // verus!
