//! Integers in a given base.

use crate::text;
use core::ops::Neg;
use vstd::prelude::*;

verus! {

/// The value of an ASCII digit or letter as a digit; 36, which is no digit of any
/// base, for every other byte.
pub open spec fn digit_value(b: u8) -> nat {
    if '0' as u8 <= b <= '9' as u8 {
        (b - '0' as u8) as nat
    } else if 'a' as u8 <= b <= 'z' as u8 {
        (b - 'a' as u8 + 10) as nat
    } else if 'A' as u8 <= b <= 'Z' as u8 {
        (b - 'A' as u8 + 10) as nat
    } else {
        36
    }
}

/// Whether these are digits of the base, at least one.
pub open spec fn all_digits(s: Seq<u8>, radix: nat) -> bool {
    &&& s.len() > 0
    &&& forall|i: int| 0 <= i < s.len() ==> digit_value(#[trigger] s[i]) < radix
}

/// The number that a sequence of digits writes, the most significant first.
pub open spec fn digits_value(s: Seq<u8>, radix: nat) -> nat
    decreases s.len(),
{
    if s.len() == 0 {
        0
    } else {
        digits_value(s.drop_last(), radix) * radix + digit_value(s.last())
    }
}

/// The number that digits write; nothing else writes one.
pub open spec fn natural(s: Seq<u8>, radix: nat) -> Option<nat> {
    if all_digits(s, radix) {
        Some(digits_value(s, radix))
    } else {
        None
    }
}

/// The integer that a text writes: digits, behind an optional `+` or, for a signed
/// type, `-`.
pub open spec fn integer(s: Seq<u8>, radix: nat, signed: bool) -> Option<int> {
    if s.len() > 0 && s[0] == '+' as u8 {
        match natural(s.drop_first(), radix) {
            Some(n) => Some(n as int),
            None => None,
        }
    } else if signed && s.len() > 0 && s[0] == '-' as u8 {
        match natural(s.drop_first(), radix) {
            Some(n) => Some(-(n as int)),
            None => None,
        }
    } else {
        match natural(s, radix) {
            Some(n) => Some(n as int),
            None => None,
        }
    }
}

/// A type whose values can be written as digits in some base.
pub trait Num: Sized {
    /// The value that a text, given by its bytes, writes in the base.
    spec fn parsed(src: Seq<u8>, radix: nat) -> Option<Self>;

    /// Reads a value off the whole of a text.
    fn from_str(src: &str, radix: u32) -> (r: Result<Self, ()>)
        requires
            2 <= radix <= 36,
        ensures
            r == match Self::parsed(text::bytes_of(src), radix as nat) {
                Some(v) => Ok::<Self, ()>(v),
                None => Err::<Self, ()>(()),
            },
    ;
}

/// Whether every value that digits write has a negation.
pub open spec fn negatable<T: Neg<Output = T> + Num>() -> bool {
    forall|src: Seq<u8>, radix: nat, v: T|
        (src.len() == 0 || src[0] != '-' as u8) && #[trigger] T::parsed(src, radix) == Some(v)
            ==> #[trigger] vstd::std_specs::ops::NegSpec::neg_req(v)
}

/// The value of a byte as a digit.
fn digit_of(b: u8) -> (r: u8)
    ensures
        r == digit_value(b),
{
    if '0' as u8 <= b && b <= '9' as u8 {
        b - '0' as u8
    } else if 'a' as u8 <= b && b <= 'z' as u8 {
        b - 'a' as u8 + 10
    } else if 'A' as u8 <= b && b <= 'Z' as u8 {
        b - 'A' as u8 + 10
    } else {
        36
    }
}

/// A prefix of some digits writes no larger a number than all of them.
proof fn lemma_prefix_value(s: Seq<u8>, k: int, radix: nat)
    requires
        0 <= k <= s.len(),
        radix >= 1,
    ensures
        digits_value(s.take(k), radix) <= digits_value(s, radix),
    decreases s.len() - k,
{
    if k == s.len() {
        assert(s.take(k) =~= s);
    } else {
        lemma_prefix_value(s, k + 1, radix);
        let next = s.take(k + 1);
        assert(next.drop_last() =~= s.take(k));
        let v = digits_value(s.take(k), radix);
        assert(v <= v * radix) by (nonlinear_arith)
            requires
                radix >= 1,
        ;
    }
}

/// Reads a natural number no larger than `limit` off digits.
fn natural_up_to(digits: &[u8], radix: u32, limit: i128) -> (r: Option<i128>)
    requires
        2 <= radix <= 36,
        0 <= limit <= u64::MAX,
    ensures
        r == match natural(digits@, radix as nat) {
            Some(n) => if n <= limit {
                Some(n as i128)
            } else {
                None
            },
            None => None,
        },
{
    if digits.len() == 0 {
        return None;
    }
    let mut v: i128 = 0;
    let mut i: usize = 0;
    assert(digits@.take(0) =~= Seq::<u8>::empty());
    while i < digits.len()
        invariant
            2 <= radix <= 36,
            0 <= v <= limit <= u64::MAX,
            i <= digits@.len(),
            v == digits_value(digits@.take(i as int), radix as nat),
            forall|j: int| 0 <= j < i ==> digit_value(#[trigger] digits@[j]) < radix,
        decreases digits@.len() - i,
    {
        let d: u8 = digit_of(digits[i]);
        if d as u32 >= radix {
            assert(digit_value(digits@[i as int]) >= radix);
            return None;
        }
        assert(0 <= v * radix <= 36 * 0xffff_ffff_ffff_ffffi128) by (nonlinear_arith)
            requires
                0 <= v <= 0xffff_ffff_ffff_ffffi128,
                2 <= radix <= 36,
        ;
        let next: i128 = v * (radix as i128) + d as i128;
        proof {
            let t = digits@.take(i + 1);
            assert(t.drop_last() =~= digits@.take(i as int));
            assert(t.last() == digits@[i as int]);
            lemma_prefix_value(digits@, i + 1, radix as nat);
        }
        if next > limit {
            return None;
        }
        v = next;
        i += 1;
    }
    assert(digits@.take(i as int) =~= digits@);
    Some(v)
}

/// Reads an integer between `lo` and `hi` off a text.
fn integer_within(src: &str, radix: u32, signed: bool, lo: i128, hi: i128) -> (r: Option<i128>)
    requires
        2 <= radix <= 36,
        -(u64::MAX as int) <= lo <= 0 <= hi <= u64::MAX,
    ensures
        r == match integer(text::bytes_of(src), radix as nat, signed) {
            Some(n) => if lo <= n <= hi {
                Some(n as i128)
            } else {
                None
            },
            None => None,
        },
{
    let bytes: &[u8] = src.as_bytes();
    let n: usize = bytes.len();
    if n > 0 && bytes[0] == '+' as u8 {
        assert(bytes@.subrange(1, n as int) =~= bytes@.drop_first());
        natural_up_to(&bytes[1..n], radix, hi)
    } else if signed && n > 0 && bytes[0] == '-' as u8 {
        assert(bytes@.subrange(1, n as int) =~= bytes@.drop_first());
        match natural_up_to(&bytes[1..n], radix, -lo) {
            Some(v) => Some(-v),
            None => None,
        }
    } else {
        natural_up_to(bytes, radix, hi)
    }
}

impl Num for u8 {
    open spec fn parsed(src: Seq<u8>, radix: nat) -> Option<u8> {
        match integer(src, radix, false) {
            Some(n) => if u8::MIN <= n <= u8::MAX {
                Some(n as u8)
            } else {
                None
            },
            None => None,
        }
    }

    fn from_str(src: &str, radix: u32) -> (r: Result<u8, ()>) {
        match integer_within(src, radix, false, u8::MIN as i128, u8::MAX as i128) {
            Some(n) => Ok(n as u8),
            None => Err(()),
        }
    }
}

impl Num for u16 {
    open spec fn parsed(src: Seq<u8>, radix: nat) -> Option<u16> {
        match integer(src, radix, false) {
            Some(n) => if u16::MIN <= n <= u16::MAX {
                Some(n as u16)
            } else {
                None
            },
            None => None,
        }
    }

    fn from_str(src: &str, radix: u32) -> (r: Result<u16, ()>) {
        match integer_within(src, radix, false, u16::MIN as i128, u16::MAX as i128) {
            Some(n) => Ok(n as u16),
            None => Err(()),
        }
    }
}

impl Num for u32 {
    open spec fn parsed(src: Seq<u8>, radix: nat) -> Option<u32> {
        match integer(src, radix, false) {
            Some(n) => if u32::MIN <= n <= u32::MAX {
                Some(n as u32)
            } else {
                None
            },
            None => None,
        }
    }

    fn from_str(src: &str, radix: u32) -> (r: Result<u32, ()>) {
        match integer_within(src, radix, false, u32::MIN as i128, u32::MAX as i128) {
            Some(n) => Ok(n as u32),
            None => Err(()),
        }
    }
}

impl Num for u64 {
    open spec fn parsed(src: Seq<u8>, radix: nat) -> Option<u64> {
        match integer(src, radix, false) {
            Some(n) => if u64::MIN <= n <= u64::MAX {
                Some(n as u64)
            } else {
                None
            },
            None => None,
        }
    }

    fn from_str(src: &str, radix: u32) -> (r: Result<u64, ()>) {
        match integer_within(src, radix, false, u64::MIN as i128, u64::MAX as i128) {
            Some(n) => Ok(n as u64),
            None => Err(()),
        }
    }
}

impl Num for i8 {
    open spec fn parsed(src: Seq<u8>, radix: nat) -> Option<i8> {
        match integer(src, radix, true) {
            Some(n) => if i8::MIN <= n <= i8::MAX {
                Some(n as i8)
            } else {
                None
            },
            None => None,
        }
    }

    fn from_str(src: &str, radix: u32) -> (r: Result<i8, ()>) {
        match integer_within(src, radix, true, i8::MIN as i128, i8::MAX as i128) {
            Some(n) => Ok(n as i8),
            None => Err(()),
        }
    }
}

impl Num for i16 {
    open spec fn parsed(src: Seq<u8>, radix: nat) -> Option<i16> {
        match integer(src, radix, true) {
            Some(n) => if i16::MIN <= n <= i16::MAX {
                Some(n as i16)
            } else {
                None
            },
            None => None,
        }
    }

    fn from_str(src: &str, radix: u32) -> (r: Result<i16, ()>) {
        match integer_within(src, radix, true, i16::MIN as i128, i16::MAX as i128) {
            Some(n) => Ok(n as i16),
            None => Err(()),
        }
    }
}

impl Num for i32 {
    open spec fn parsed(src: Seq<u8>, radix: nat) -> Option<i32> {
        match integer(src, radix, true) {
            Some(n) => if i32::MIN <= n <= i32::MAX {
                Some(n as i32)
            } else {
                None
            },
            None => None,
        }
    }

    fn from_str(src: &str, radix: u32) -> (r: Result<i32, ()>) {
        match integer_within(src, radix, true, i32::MIN as i128, i32::MAX as i128) {
            Some(n) => Ok(n as i32),
            None => Err(()),
        }
    }
}

impl Num for i64 {
    open spec fn parsed(src: Seq<u8>, radix: nat) -> Option<i64> {
        match integer(src, radix, true) {
            Some(n) => if i64::MIN <= n <= i64::MAX {
                Some(n as i64)
            } else {
                None
            },
            None => None,
        }
    }

    fn from_str(src: &str, radix: u32) -> (r: Result<i64, ()>) {
        match integer_within(src, radix, true, i64::MIN as i128, i64::MAX as i128) {
            Some(n) => Ok(n as i64),
            None => Err(()),
        }
    }
}

} // verus!
