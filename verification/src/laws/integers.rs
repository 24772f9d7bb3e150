//! Integers, written and read back.

use crate::cursor::Outcome;
use crate::error::ParseError;
use crate::grammar;
use crate::grammar::ByteClass;
use crate::laws::alphabet;
use crate::num;
use crate::num::Num;
use crate::position;
use crate::position::Position;
use vstd::prelude::*;

verus! {

/// A number in decimal, as bytes.
pub open spec fn decimal_bytes(n: nat) -> Seq<u8> {
    Seq::new(position::decimal(n).len(), |i: int| position::decimal(n)[i] as u8)
}

/// Digits are read up to their end, in base ten.
pub proof fn law_decimal_digits<T: Num>(digits: Seq<u8>, tail: Seq<u8>)
    requires
        num::all_digits(digits, 10),
        !grammar::has_at(tail, 0, ByteClass::Digit),
        digits == seq!['0' as u8] ==> grammar::radix(digits + tail) == 10,
    ensures
        grammar::unsigned::<T>(digits + tail).used == digits.len(),
        match T::parsed(digits, 10) {
            Some(v) => grammar::unsigned::<T>(digits + tail).result matches Ok(x) && x == v,
            None => grammar::unsigned::<T>(digits + tail).result is Err,
        },
{
    let s = digits + tail;
    assert(s[0] == digits[0]);
    if digits.len() > 1 {
        assert(s[1] == digits[1]);
        assert(num::digit_value(digits[1]) < 10);
    } else {
        assert(digits =~= seq![digits[0]]);
    }
    assert(s.skip(0) =~= s);
    lemma_digits_run(digits, 10, tail);
    assert(s.subrange(0, digits.len() as int) =~= digits);
}

/// Behind `0x`, `0b` and `0o`, digits are read in base sixteen, two and eight.
pub proof fn law_prefixed_digits<T: Num>(
    prefix: Seq<u8>,
    base: nat,
    digits: Seq<u8>,
    tail: Seq<u8>,
)
    requires
        ({
            ||| prefix == seq!['0' as u8, 'x' as u8] && base == 16
            ||| prefix == seq!['0' as u8, 'b' as u8] && base == 2
            ||| prefix == seq!['0' as u8, 'o' as u8] && base == 8
        }),
        num::all_digits(digits, base),
        !grammar::has_at(tail, 0, ByteClass::Digit),
    ensures
        grammar::unsigned::<T>(prefix + digits + tail).used == digits.len() + 2,
        match T::parsed(digits, base) {
            Some(v) => grammar::unsigned::<T>(prefix + digits + tail).result matches Ok(x) && x
                == v,
            None => grammar::unsigned::<T>(prefix + digits + tail).result is Err,
        },
{
    let s = prefix + digits + tail;
    assert(s[0] == prefix[0]);
    assert(s[1] == prefix[1]);
    assert(s.skip(2) =~= digits + tail);
    lemma_digits_run(digits, base, tail);
    assert(s.subrange(2, (2 + digits.len()) as int) =~= digits);
}

/// Every natural number that a type holds, written in decimal, is read back, as long as
/// what follows is no digit and does not turn a `0` into a prefix.
pub proof fn law_decimal_round_trip(n: nat, tail: Seq<u8>)
    requires
        !grammar::has_at(tail, 0, ByteClass::Digit),
        n == 0 ==> grammar::radix(seq!['0' as u8] + tail) == 10,
    ensures
        ({
            let w = decimal_bytes(n);
            &&& num::natural(w, 10) == Some(n)
            &&& n <= u8::MAX ==> grammar::unsigned::<u8>(w + tail) == Outcome::<
                u8,
                ParseError,
            >::value(w.len(), n as u8)
            &&& n <= u16::MAX ==> grammar::unsigned::<u16>(w + tail) == Outcome::<
                u16,
                ParseError,
            >::value(w.len(), n as u16)
            &&& n <= u32::MAX ==> grammar::unsigned::<u32>(w + tail) == Outcome::<
                u32,
                ParseError,
            >::value(w.len(), n as u32)
            &&& n <= u64::MAX ==> grammar::unsigned::<u64>(w + tail) == Outcome::<
                u64,
                ParseError,
            >::value(w.len(), n as u64)
            &&& n <= i8::MAX ==> grammar::unsigned::<i8>(w + tail) == Outcome::<
                i8,
                ParseError,
            >::value(w.len(), n as i8)
            &&& n <= i16::MAX ==> grammar::unsigned::<i16>(w + tail) == Outcome::<
                i16,
                ParseError,
            >::value(w.len(), n as i16)
            &&& n <= i32::MAX ==> grammar::unsigned::<i32>(w + tail) == Outcome::<
                i32,
                ParseError,
            >::value(w.len(), n as i32)
            &&& n <= i64::MAX ==> grammar::unsigned::<i64>(w + tail) == Outcome::<
                i64,
                ParseError,
            >::value(w.len(), n as i64)
        }),
{
    let w = decimal_bytes(n);
    lemma_decimal(n);
    if w == seq!['0' as u8] {
        reveal_with_fuel(num::digits_value, 2);
        assert(w.drop_last() =~= Seq::<u8>::empty());
    }
    assert(num::digit_value(w[0]) < 10);
    law_decimal_digits::<u8>(w, tail);
    law_decimal_digits::<u16>(w, tail);
    law_decimal_digits::<u32>(w, tail);
    law_decimal_digits::<u64>(w, tail);
    law_decimal_digits::<i8>(w, tail);
    law_decimal_digits::<i16>(w, tail);
    law_decimal_digits::<i32>(w, tail);
    law_decimal_digits::<i64>(w, tail);
}

/// A `-` negates what a `+` keeps, and a `+` says nothing.
pub proof fn law_signs<T: Num>(s: Seq<u8>)
    requires
        s.len() > 0,
        s[0] != '+' as u8,
        s[0] != '-' as u8,
    ensures
        grammar::signed::<T>(seq!['+' as u8] + s) == grammar::signed::<T>(s).behind(1),
        grammar::signed::<T>(seq!['-' as u8] + s).used == grammar::signed::<T>(
            seq!['+' as u8] + s,
        ).used,
        match grammar::signed::<T>(seq!['+' as u8] + s).result {
            Ok((_, v)) => grammar::signed::<T>(seq!['-' as u8] + s).result matches Ok((negative, x))
                && negative && x == v,
            Err(f) => grammar::signed::<T>(seq!['-' as u8] + s).result matches Err(g) && g == f,
        },
{
    assert((seq!['-' as u8] + s).drop_first() =~= s);
    assert((seq!['+' as u8] + s).drop_first() =~= s);
}

/// An integer in decimal, with a `-` in front of a negative one.
pub open spec fn signed_decimal_bytes(n: int) -> Seq<u8> {
    if n < 0 {
        seq!['-' as u8] + decimal_bytes((-n) as nat)
    } else {
        decimal_bytes(n as nat)
    }
}

/// Whether that many bytes are read as a sign and a size.
pub open spec fn reads_as<T>(
    o: Outcome<(bool, T), ParseError>,
    used: nat,
    negative: bool,
    size: T,
) -> bool {
    o == Outcome::<(bool, T), ParseError>::value(used, (negative, size))
}

/// Every integer that a signed type holds, but for the smallest, is read back from its
/// sign and its size in decimal, as long as what follows is no digit and does not turn a
/// `0` into a prefix.
pub proof fn law_signed_round_trip(n: int, tail: Seq<u8>)
    requires
        !grammar::has_at(tail, 0, ByteClass::Digit),
        n == 0 ==> grammar::radix(seq!['0' as u8] + tail) == 10,
    ensures
        ({
            let w = signed_decimal_bytes(n);
            let size = if n < 0 {
                -n
            } else {
                n
            };
            &&& -i8::MAX <= n <= i8::MAX ==> reads_as(
                grammar::signed::<i8>(w + tail),
                w.len(),
                n < 0,
                size as i8,
            )
            &&& -i16::MAX <= n <= i16::MAX ==> reads_as(
                grammar::signed::<i16>(w + tail),
                w.len(),
                n < 0,
                size as i16,
            )
            &&& -i32::MAX <= n <= i32::MAX ==> reads_as(
                grammar::signed::<i32>(w + tail),
                w.len(),
                n < 0,
                size as i32,
            )
            &&& -i64::MAX <= n <= i64::MAX ==> reads_as(
                grammar::signed::<i64>(w + tail),
                w.len(),
                n < 0,
                size as i64,
            )
        }),
{
    let size = (if n < 0 {
        -n
    } else {
        n
    }) as nat;
    let d = decimal_bytes(size);
    let s = signed_decimal_bytes(n) + tail;
    law_decimal_round_trip(size, tail);
    lemma_decimal(size);
    assert(num::digit_value(d[0]) < 10);
    if n < 0 {
        assert(s[0] == '-' as u8);
        assert(s.drop_first() =~= d + tail);
    } else {
        assert(s[0] == d[0]);
    }
}

proof fn lemma_digits_run(digits: Seq<u8>, base: nat, tail: Seq<u8>)
    requires
        base <= 16,
        num::all_digits(digits, base),
        !grammar::has_at(tail, 0, ByteClass::Digit),
    ensures
        grammar::run(digits + tail, ByteClass::Digit) == digits.len(),
{
    let s = digits + tail;
    assert forall|i: int| 0 <= i < digits.len() implies ByteClass::Digit.has(#[trigger] s[i]) by {
        assert(s[i] == digits[i]);
        assert(num::digit_value(digits[i]) < base);
    }
    if tail.len() > 0 {
        assert(s[digits.len() as int] == tail[0]);
    }
    grammar::lemma_run_is(s, ByteClass::Digit, digits.len());
}

proof fn lemma_decimal(n: nat)
    ensures
        num::all_digits(decimal_bytes(n), 10),
        num::digits_value(decimal_bytes(n), 10) == n,
    decreases n,
{
    let w = decimal_bytes(n);
    let d = (n % 10) as nat;
    assert(position::digit(d) as u8 == 48 + d);
    if n < 10 {
        reveal_with_fuel(num::digits_value, 2);
        assert(w =~= seq![(48 + n) as u8]);
        assert(w.drop_last() =~= Seq::<u8>::empty());
    } else {
        lemma_decimal(n / 10);
        let v = decimal_bytes(n / 10);
        assert(w =~= v.push((48 + d) as u8));
        assert(w.drop_last() =~= v);
        assert forall|i: int| 0 <= i < w.len() implies num::digit_value(#[trigger] w[i]) < 10 by {
            if i < v.len() {
                assert(num::digit_value(v[i]) < 10);
            }
        }
    }
}

/// Two positions with the same text are the same.
pub proof fn law_position_text_is_unambiguous(p: Position, q: Position)
    requires
        position::decimal(p.line as nat) + seq![':'] + position::decimal(p.col as nat)
            == position::decimal(q.line as nat) + seq![':'] + position::decimal(q.col as nat),
    ensures
        p == q,
{
    let (a, b) = (position::decimal(p.line as nat), position::decimal(p.col as nat));
    let (c, d) = (position::decimal(q.line as nat), position::decimal(q.col as nat));
    let (s, t) = (a + seq![':'] + b, c + seq![':'] + d);
    lemma_decimal_is_digits(p.line as nat);
    lemma_decimal_is_digits(q.line as nat);
    assert(s[a.len() as int] == ':');
    assert(t[c.len() as int] == ':');
    if a.len() < c.len() {
        assert(t[a.len() as int] == c[a.len() as int]);
    } else if c.len() < a.len() {
        assert(s[c.len() as int] == a[c.len() as int]);
    }
    assert(a =~= s.take(a.len() as int));
    assert(c =~= t.take(a.len() as int));
    assert(b =~= s.skip(a.len() as int + 1));
    assert(d =~= t.skip(a.len() as int + 1));
    assert(decimal_bytes(p.line as nat) == decimal_bytes(q.line as nat));
    assert(decimal_bytes(p.col as nat) == decimal_bytes(q.col as nat));
    lemma_decimal(p.line as nat);
    lemma_decimal(q.line as nat);
    lemma_decimal(p.col as nat);
    lemma_decimal(q.col as nat);
}

proof fn lemma_decimal_is_digits(n: nat)
    ensures
        forall|i: int|
            0 <= i < position::decimal(n).len() ==> (#[trigger] position::decimal(n)[i]) != ':',
    decreases n,
{
    let d = (n % 10) as nat;
    assert(position::digit(d) as u32 == 48 + d);
    if n >= 10 {
        lemma_decimal_is_digits(n / 10);
        let v = position::decimal(n / 10);
        assert forall|i: int| 0 <= i < position::decimal(n).len() implies (
        #[trigger] position::decimal(n)[i]) != ':' by {
            if i < v.len() {
                assert(v[i] != ':');
            }
        }
    }
}

/// The integer that a text writes: digits of the base, at least one, behind a `+` or, if
/// there are negative ones, a `-`, or behind no sign.
pub open spec fn numeral(src: Seq<u8>, base: nat, negatives: bool) -> Option<int> {
    let plus = src.len() > 0 && src[0] == '+' as u8;
    let minus = negatives && src.len() > 0 && src[0] == '-' as u8;
    let digits = if plus || minus {
        src.drop_first()
    } else {
        src
    };
    if digits.len() == 0 || !alphabet::digits_of(digits, base) {
        None
    } else if minus {
        Some(0 - alphabet::positional(digits, base))
    } else {
        Some(alphabet::positional(digits, base) as int)
    }
}

/// The integer types, each with its range.
pub trait Whole: Num {
    /// The integer that a value is.
    spec fn whole(self) -> int;

    /// The smallest.
    spec fn least() -> int;

    /// The largest.
    spec fn greatest() -> int;

    /// In every base from two to thirty-six, a text is read as the integer that it writes,
    /// if the type holds that one, and is refused otherwise.
    proof fn law_numerals(src: Seq<u8>, base: nat)
        requires
            2 <= base <= 36,
        ensures
            match numeral(src, base, Self::least() < 0) {
                Some(n) => if Self::least() <= n <= Self::greatest() {
                    Self::parsed(src, base) matches Some(v) && v.whole() == n
                } else {
                    Self::parsed(src, base) is None
                },
                None => Self::parsed(src, base) is None,
            },
    ;
}

impl Whole for u8 {
    open spec fn whole(self) -> int {
        self as int
    }

    open spec fn least() -> int {
        0
    }

    open spec fn greatest() -> int {
        0xFF
    }

    proof fn law_numerals(src: Seq<u8>, base: nat) {
        lemma_numeral(src, base, false);
    }
}

impl Whole for u16 {
    open spec fn whole(self) -> int {
        self as int
    }

    open spec fn least() -> int {
        0
    }

    open spec fn greatest() -> int {
        0xFFFF
    }

    proof fn law_numerals(src: Seq<u8>, base: nat) {
        lemma_numeral(src, base, false);
    }
}

impl Whole for u32 {
    open spec fn whole(self) -> int {
        self as int
    }

    open spec fn least() -> int {
        0
    }

    open spec fn greatest() -> int {
        0xFFFF_FFFF
    }

    proof fn law_numerals(src: Seq<u8>, base: nat) {
        lemma_numeral(src, base, false);
    }
}

impl Whole for u64 {
    open spec fn whole(self) -> int {
        self as int
    }

    open spec fn least() -> int {
        0
    }

    open spec fn greatest() -> int {
        0xFFFF_FFFF_FFFF_FFFF
    }

    proof fn law_numerals(src: Seq<u8>, base: nat) {
        lemma_numeral(src, base, false);
    }
}

impl Whole for i8 {
    open spec fn whole(self) -> int {
        self as int
    }

    open spec fn least() -> int {
        -0x80
    }

    open spec fn greatest() -> int {
        0x7F
    }

    proof fn law_numerals(src: Seq<u8>, base: nat) {
        lemma_numeral(src, base, true);
    }
}

impl Whole for i16 {
    open spec fn whole(self) -> int {
        self as int
    }

    open spec fn least() -> int {
        -0x8000
    }

    open spec fn greatest() -> int {
        0x7FFF
    }

    proof fn law_numerals(src: Seq<u8>, base: nat) {
        lemma_numeral(src, base, true);
    }
}

impl Whole for i32 {
    open spec fn whole(self) -> int {
        self as int
    }

    open spec fn least() -> int {
        -0x8000_0000
    }

    open spec fn greatest() -> int {
        0x7FFF_FFFF
    }

    proof fn law_numerals(src: Seq<u8>, base: nat) {
        lemma_numeral(src, base, true);
    }
}

impl Whole for i64 {
    open spec fn whole(self) -> int {
        self as int
    }

    open spec fn least() -> int {
        -0x8000_0000_0000_0000
    }

    open spec fn greatest() -> int {
        0x7FFF_FFFF_FFFF_FFFF
    }

    proof fn law_numerals(src: Seq<u8>, base: nat) {
        lemma_numeral(src, base, true);
    }
}

proof fn lemma_numeral(src: Seq<u8>, base: nat, signed: bool)
    requires
        2 <= base <= 36,
    ensures
        num::integer(src, base, signed) == numeral(src, base, signed),
{
    alphabet::law_naturals(src, base);
    if src.len() > 0 {
        alphabet::law_naturals(src.drop_first(), base);
    }
}

/// Whether digits that follow `0x`, `0b` or `0o`, or nothing, are in this base.
pub open spec fn prefix_of_base(prefix: Seq<u8>, base: nat) -> bool {
    ||| prefix == seq!['0' as u8, 'x' as u8] && base == 16
    ||| prefix == seq!['0' as u8, 'b' as u8] && base == 2
    ||| prefix == seq!['0' as u8, 'o' as u8] && base == 8
    ||| prefix == Seq::<u8>::empty() && base == 10
}

/// Whether `0x`, `0b` or `0o` stands in front.
pub open spec fn has_prefix(s: Seq<u8>) -> bool {
    s.len() >= 2 && s[0] == '0' as u8 && (s[1] == 'x' as u8 || s[1] == 'b' as u8 || s[1]
        == 'o' as u8)
}

/// An integer without a sign: all hexadecimal digits behind the prefix are taken. They are
/// read as the number that they write in the base of the prefix, if all are digits of that
/// base and the type holds the number. Otherwise they are blamed from their beginning.
pub proof fn law_unsigned_integers<T: Whole>(
    prefix: Seq<u8>,
    base: nat,
    digits: Seq<u8>,
    tail: Seq<u8>,
)
    requires
        prefix_of_base(prefix, base),
        forall|i: int| 0 <= i < digits.len() ==> alphabet::is_hex(#[trigger] digits[i]),
        tail.len() == 0 || !alphabet::is_hex(tail[0]),
        base == 10 ==> !has_prefix(digits + tail),
    ensures
        grammar::unsigned::<T>(prefix + digits + tail).used == prefix.len() + digits.len(),
        if digits.len() > 0 && alphabet::digits_of(digits, base) && T::least()
            <= alphabet::positional(digits, base) <= T::greatest() {
            grammar::unsigned::<T>(prefix + digits + tail).result matches Ok(v) && v.whole()
                == alphabet::positional(digits, base)
        } else {
            grammar::unsigned::<T>(prefix + digits + tail).result matches Err(f) && f.at
                == prefix.len() && f.kind is ExpectedInteger
        },
{
    let s = prefix + digits + tail;
    let p = prefix.len() as int;
    let t = s.skip(p);
    let d = digits.len();
    if base == 10 {
        assert(s =~= digits + tail);
    } else {
        assert(s[0] == prefix[0]);
        assert(s[1] == prefix[1]);
    }
    assert(grammar::radix(s) == base);
    assert(t =~= digits + tail);
    assert forall|i: int| 0 <= i < d implies ByteClass::Digit.has(#[trigger] t[i]) by {
        assert(t[i] == digits[i]);
        assert(alphabet::is_hex(digits[i]));
    }
    if tail.len() > 0 {
        assert(t[d as int] == tail[0]);
    }
    grammar::lemma_run_is(t, ByteClass::Digit, d);
    assert(s.subrange(p, p + d) =~= digits);
    T::law_numerals(digits, base);
    if d > 0 {
        assert(alphabet::is_hex(digits[0]));
    }
}

/// An integer with a sign: a `+` changes nothing, a `-` only the sign, and what follows
/// either is an integer without a sign. There has to be something to read.
pub proof fn law_signed_integers<T: Num>(s: Seq<u8>)
    ensures
        grammar::signed::<T>(Seq::<u8>::empty()).used == 0,
        grammar::signed::<T>(Seq::<u8>::empty()).result matches Err(f) && f.kind is Eof && f.at
            == 0,
        s.len() > 0 && s[0] != '+' as u8 && s[0] != '-' as u8 ==> signed_as(
            grammar::signed::<T>(s),
            0,
            false,
            grammar::unsigned::<T>(s),
        ),
        signed_as(
            grammar::signed::<T>(seq!['+' as u8] + s),
            1,
            false,
            grammar::unsigned::<T>(s),
        ),
        signed_as(
            grammar::signed::<T>(seq!['-' as u8] + s),
            1,
            true,
            grammar::unsigned::<T>(s),
        ),
{
    let (p, m) = (seq!['+' as u8] + s, seq!['-' as u8] + s);
    assert(p.drop_first() =~= s);
    assert(m.drop_first() =~= s);
    assert(p[0] == '+' as u8);
    assert(m[0] == '-' as u8);
}

/// Whether something was read as a sign of `n` bytes in front of an integer.
pub open spec fn signed_as<T>(
    o: Outcome<(bool, T), ParseError>,
    n: nat,
    negative: bool,
    number: Outcome<T, ParseError>,
) -> bool {
    &&& o.used == n + number.used
    &&& match number.result {
        Ok(v) => o.result matches Ok((sign, x)) && sign == negative && x == v,
        Err(f) => o.result matches Err(g) && g.kind == f.kind && g.at == n + f.at,
    }
}

/// A signed type holds the negation of every integer that is read without a sign.
pub proof fn law_negations_exist(src: Seq<u8>, base: nat)
    requires
        2 <= base <= 36,
        src.len() == 0 || src[0] != '-' as u8,
    ensures
        i8::parsed(src, base) matches Some(v) ==> v >= 0,
        i16::parsed(src, base) matches Some(v) ==> v >= 0,
        i32::parsed(src, base) matches Some(v) ==> v >= 0,
        i64::parsed(src, base) matches Some(v) ==> v >= 0,
{
}

} // verus!
