//! The extensions of the notation that a document can enable.

use vstd::prelude::*;

verus! {

/// The bit of the extension `unwrap_newtypes`.
pub const UNWRAP_NEWTYPES: usize = 0x1;

/// The bit of the extension `implicit_some`.
pub const IMPLICIT_SOME: usize = 0x2;

/// A set of extensions, one bit for each.
#[derive(Clone, Copy, PartialEq, Eq, PartialOrd, Ord, Hash, Structural)]
pub struct Extensions {
    pub bits: usize,
}

/// The bytes of `unwrap_newtypes`.
pub open spec fn unwrap_newtypes_name() -> Seq<u8> {
    seq![
        'u' as u8, 'n' as u8, 'w' as u8, 'r' as u8, 'a' as u8, 'p' as u8, '_' as u8, 'n' as u8,
        'e' as u8, 'w' as u8, 't' as u8, 'y' as u8, 'p' as u8, 'e' as u8, 's' as u8,
    ]
}

/// The bytes of `implicit_some`.
pub open spec fn implicit_some_name() -> Seq<u8> {
    seq![
        'i' as u8, 'm' as u8, 'p' as u8, 'l' as u8, 'i' as u8, 'c' as u8, 'i' as u8, 't' as u8,
        '_' as u8, 's' as u8, 'o' as u8, 'm' as u8, 'e' as u8,
    ]
}

/// The digit of a number below sixteen, with its letter in lower case.
pub open spec fn hex_digit(d: nat) -> char {
    if d < 10 {
        ('0' as u32 + d) as char
    } else {
        ('a' as u32 + d - 10) as char
    }
}

/// A number in hexadecimal, without leading zeros.
pub open spec fn hexadecimal(n: nat) -> Seq<char>
    decreases n,
{
    if n < 16 {
        seq![hex_digit(n)]
    } else {
        hexadecimal(n / 16).push(hex_digit(n % 16))
    }
}

/// Some words with bars between them.
pub open spec fn barred(words: Seq<Seq<char>>) -> Seq<char>
    decreases words.len(),
{
    if words.len() == 0 {
        Seq::empty()
    } else if words.len() == 1 {
        words[0]
    } else {
        barred(words.drop_last()) + " | "@ + words.last()
    }
}

impl Extensions {
    /// The names of the extensions in the set, and the number of the bits that are none.
    pub open spec fn words(self) -> Seq<Seq<char>> {
        let unwrap = if self.bits & UNWRAP_NEWTYPES == UNWRAP_NEWTYPES {
            seq!["UNWRAP_NEWTYPES"@]
        } else {
            Seq::empty()
        };
        let implicit = if self.bits & IMPLICIT_SOME == IMPLICIT_SOME {
            seq!["IMPLICIT_SOME"@]
        } else {
            Seq::empty()
        };
        let others = self.bits & !(UNWRAP_NEWTYPES | IMPLICIT_SOME);
        let unknown = if others != 0 {
            seq!["0x"@ + hexadecimal(others as nat)]
        } else {
            Seq::empty()
        };
        unwrap + implicit + unknown
    }

    /// The set as a text.
    pub open spec fn written(self) -> Seq<char> {
        if self.words().len() == 0 {
            "(empty)"@
        } else {
            barred(self.words())
        }
    }

    /// The set as a text: the names of its extensions, with bars between them, then the bits
    /// that belong to none; `(empty)` if there is nothing to name.
    pub fn to_text(&self) -> (r: String)
        ensures
            r@ == self.written(),
    {
        let ghost mut words: Seq<Seq<char>> = Seq::empty();
        let mut out: String = String::new();
        let mut first: bool = true;
        assert(out@ =~= barred(words));
        if self.bits & UNWRAP_NEWTYPES == UNWRAP_NEWTYPES {
            append_word(&mut out, first, "UNWRAP_NEWTYPES", Ghost(words));
            first = false;
            proof {
                words = words.push("UNWRAP_NEWTYPES"@);
            }
        }
        if self.bits & IMPLICIT_SOME == IMPLICIT_SOME {
            append_word(&mut out, first, "IMPLICIT_SOME", Ghost(words));
            first = false;
            proof {
                words = words.push("IMPLICIT_SOME"@);
            }
        }
        let others: usize = self.bits & !(UNWRAP_NEWTYPES | IMPLICIT_SOME);
        if others != 0 {
            let mut number: String = String::new();
            number.append("0x");
            append_hexadecimal(&mut number, others);
            assert(number@ =~= "0x"@ + hexadecimal(others as nat));
            append_word(&mut out, first, number.as_str(), Ghost(words));
            first = false;
            proof {
                words = words.push(number@);
            }
        }
        assert(words =~= self.words());
        if first {
            out.append("(empty)");
            assert(out@ =~= "(empty)"@);
        }
        out
    }

    /// No extension.
    pub open spec fn none() -> Extensions {
        Extensions { bits: 0 }
    }

    /// The extension of this name.
    pub open spec fn named(ident: Seq<u8>) -> Option<Extensions> {
        if ident == unwrap_newtypes_name() {
            Some(Extensions { bits: UNWRAP_NEWTYPES })
        } else if ident == implicit_some_name() {
            Some(Extensions { bits: IMPLICIT_SOME })
        } else {
            None
        }
    }

    /// The extensions of both sets.
    pub open spec fn or(self, other: Extensions) -> Extensions {
        Extensions { bits: self.bits | other.bits }
    }

    /// The empty set.
    pub fn empty() -> (r: Extensions)
        ensures
            r == Extensions::none(),
    {
        Extensions { bits: 0 }
    }

    /// Whether no extension is enabled.
    pub fn is_empty(&self) -> (r: bool)
        ensures
            r == (*self == Extensions::none()),
    {
        self.bits == 0
    }

    /// Whether every extension of `other` is enabled.
    pub fn contains(&self, other: Extensions) -> (r: bool)
        ensures
            r == (self.bits & other.bits == other.bits),
    {
        self.bits & other.bits == other.bits
    }

    /// Enables every extension of `other`.
    pub fn insert(&mut self, other: Extensions)
        ensures
            *final(self) == old(self).or(other),
    {
        self.bits = self.bits | other.bits;
    }

    /// Creates an extension flag from an ident.
    pub fn from_ident(ident: &[u8]) -> (r: Option<Extensions>)
        ensures
            r == Extensions::named(ident@),
    {
        proof {
            reveal_strlit("unwrap_newtypes");
            reveal_strlit("implicit_some");
        }
        let a: &[u8] = "unwrap_newtypes".as_bytes();
        let b: &[u8] = "implicit_some".as_bytes();
        assert("unwrap_newtypes".is_ascii());
        assert("implicit_some".is_ascii());
        assert(a@ =~= unwrap_newtypes_name());
        assert(b@ =~= implicit_some_name());
        if same_bytes(ident, a) {
            Some(Extensions { bits: UNWRAP_NEWTYPES })
        } else if same_bytes(ident, b) {
            Some(Extensions { bits: IMPLICIT_SOME })
        } else {
            None
        }
    }
}

/// Appends a word to some words, with a bar in front unless it is the first.
fn append_word(out: &mut String, first: bool, word: &str, Ghost(words): Ghost<Seq<Seq<char>>>)
    requires
        old(out)@ == barred(words),
        first == (words.len() == 0),
    ensures
        final(out)@ == barred(words.push(word@)),
{
    assert(words.push(word@).drop_last() =~= words);
    if !first {
        out.append(" | ");
    }
    out.append(word);
    assert(out@ =~= barred(words.push(word@)));
}

/// The text of a single hexadecimal digit.
fn hex_digit_text(d: usize) -> (r: &'static str)
    requires
        d < 16,
    ensures
        r@ == seq![hex_digit(d as nat)],
{
    proof {
        reveal_strlit("0");
        reveal_strlit("1");
        reveal_strlit("2");
        reveal_strlit("3");
        reveal_strlit("4");
        reveal_strlit("5");
        reveal_strlit("6");
        reveal_strlit("7");
        reveal_strlit("8");
        reveal_strlit("9");
        reveal_strlit("a");
        reveal_strlit("b");
        reveal_strlit("c");
        reveal_strlit("d");
        reveal_strlit("e");
        reveal_strlit("f");
    }
    let r: &'static str = match d {
        0 => "0",
        1 => "1",
        2 => "2",
        3 => "3",
        4 => "4",
        5 => "5",
        6 => "6",
        7 => "7",
        8 => "8",
        9 => "9",
        10 => "a",
        11 => "b",
        12 => "c",
        13 => "d",
        14 => "e",
        _ => "f",
    };
    assert(r@ =~= seq![hex_digit(d as nat)]);
    r
}

/// Appends a number in hexadecimal.
fn append_hexadecimal(out: &mut String, n: usize)
    ensures
        final(out)@ == old(out)@ + hexadecimal(n as nat),
    decreases n,
{
    if n < 16 {
        out.append(hex_digit_text(n));
    } else {
        append_hexadecimal(out, n / 16);
        out.append(hex_digit_text(n % 16));
        assert(out@ =~= old(out)@ + hexadecimal(n as nat));
    }
}

/// The place that [`std::fmt::Debug`] writes a value to, whatever it is.
#[verifier::external_type_specification]
#[verifier::external_body]
pub struct ExFormatter<'a>(std::fmt::Formatter<'a>);

/// That such a place could not be written to.
#[verifier::external_type_specification]
#[verifier::external_body]
pub struct ExFmtError(std::fmt::Error);

/// Specifies [`std::fmt::Formatter::write_str`], which hands a text on to wherever the
/// formatter writes. Nothing is claimed of it: what becomes of the text, and whether that
/// succeeds, is up to that place.
pub assume_specification<'a>[ std::fmt::Formatter::<'a>::write_str ](
    f: &mut std::fmt::Formatter<'a>,
    data: &str,
) -> (r: Result<(), std::fmt::Error>)
;

impl std::fmt::Debug for Extensions {
    /// Hands the text of the set to the formatter.
    fn fmt(&self, f: &mut std::fmt::Formatter<'_>) -> (r: Result<(), std::fmt::Error>) {
        let text: String = self.to_text();
        f.write_str(text.as_str())
    }
}

/// Whether two byte strings are equal.
fn same_bytes(a: &[u8], b: &[u8]) -> (r: bool)
    ensures
        r == (a@ == b@),
{
    if a.len() != b.len() {
        return false;
    }
    let mut i: usize = 0;
    while i < a.len()
        invariant
            i <= a@.len(),
            a@.len() == b@.len(),
            forall|j: int| 0 <= j < i ==> a@[j] == b@[j],
        decreases a@.len() - i,
    {
        if a[i] != b[i] {
            return false;
        }
        i += 1;
    }
    assert(a@ =~= b@);
    true
}

} // verus!
