//! Blanks, identifiers and booleans.

use crate::cursor::{Cursor, Outcome};
use crate::error::ParseError;
use crate::grammar;
use crate::grammar::ByteClass;
use crate::laws::alphabet;
use vstd::prelude::*;

verus! {

/// Behind blanks and comments there are no more: skipping them twice is skipping them
/// once.
pub proof fn law_skipping_blanks_is_idempotent(s: Seq<u8>)
    ensures
        grammar::blank(s) <= s.len(),
        grammar::blank(s.skip(grammar::blank(s) as int)) == 0,
{
    grammar::lemma_blank(s);
}

/// What follows blanks and comments is neither a blank nor the start of a comment.
pub proof fn law_blanks_are_maximal(s: Seq<u8>)
    ensures
        ({
            let t = s.skip(grammar::blank(s) as int);
            !grammar::has_at(t, 0, ByteClass::WhiteSpace) && !grammar::slashes().is_prefix_of(t)
        }),
{
    grammar::lemma_blank(s);
}

/// Blanks can be put in front of blanks, of comments and of anything else.
pub proof fn law_blanks_concatenate(w: Seq<u8>, s: Seq<u8>)
    requires
        forall|i: int| 0 <= i < w.len() ==> ByteClass::WhiteSpace.has(#[trigger] w[i]),
    ensures
        grammar::blank(w + s) == w.len() + grammar::blank(s),
    decreases w.len(),
{
    if w.len() == 0 {
        assert(w + s =~= s);
    } else {
        let v = w.drop_first();
        assert forall|i: int| 0 <= i < v.len() implies ByteClass::WhiteSpace.has(
            #[trigger] v[i],
        ) by {
            assert(v[i] == w[i + 1]);
        }
        law_blanks_concatenate(v, s);
        assert(ByteClass::WhiteSpace.has(w[0]));
        assert((w + s)[0] == w[0]);
        assert((w + s).drop_first() =~= v + s);
    }
}

/// A comment, up to and with the end of its line, is blank.
pub proof fn law_comments_are_blank(line: Seq<u8>, s: Seq<u8>)
    requires
        forall|i: int| 0 <= i < line.len() ==> #[trigger] line[i] != '\n' as u8,
    ensures
        grammar::blank(grammar::slashes() + line + seq!['\n' as u8] + s) == line.len() + 3
            + grammar::blank(s),
{
    let q = grammar::slashes() + line + seq!['\n' as u8] + s;
    let t = q.skip(2);
    let k = line.len();
    assert(q.subrange(0, 2) =~= grammar::slashes());
    assert(q[0] == '/' as u8);
    assert forall|i: int| 0 <= i < k implies ByteClass::Line.has(#[trigger] t[i]) by {
        assert(t[i] == line[i]);
    }
    assert(t[k as int] == '\n' as u8);
    grammar::lemma_run_is(t, ByteClass::Line, k);
    let u = q.skip(2 + k as int);
    assert(u[0] == '\n' as u8);
    assert(u.drop_first() =~= s);
    assert(grammar::blank(u) == 1 + grammar::blank(s));
}

/// An identifier is as long as it can be: what follows cannot belong to it.
pub proof fn law_identifier_is_maximal(s: Seq<u8>)
    ensures
        grammar::identifier(s).result is Ok ==> !grammar::has_at(
            s,
            grammar::identifier(s).used as int,
            ByteClass::IdentChar,
        ),
{
    grammar::lemma_run(s, ByteClass::IdentChar);
}

/// A word stands somewhere exactly if it is the identifier that stands there.
pub proof fn law_word_is_identifier(s: Seq<u8>, word: Seq<u8>)
    requires
        word.len() > 0,
        ByteClass::IdentFirst.has(word[0]),
        forall|i: int| 0 <= i < word.len() ==> ByteClass::IdentChar.has(#[trigger] word[i]),
    ensures
        grammar::ident_at(s, word) <==> grammar::identifier(s) == Outcome::<
            Seq<u8>,
            ParseError,
        >::value(word.len(), word),
{
    let k = grammar::run(s, ByteClass::IdentChar);
    grammar::lemma_run(s, ByteClass::IdentChar);
    if grammar::ident_at(s, word) {
        assert forall|i: int| 0 <= i < word.len() implies ByteClass::IdentChar.has(
            #[trigger] s[i],
        ) by {
            assert(s.subrange(0, word.len() as int)[i] == word[i]);
        }
        assert(s[0] == word[0]) by {
            assert(s.subrange(0, word.len() as int)[0] == word[0]);
        }
        grammar::lemma_run_is(s, ByteClass::IdentChar, word.len());
        assert(s.take(word.len() as int) =~= word);
    }
    if grammar::identifier(s) == Outcome::<Seq<u8>, ParseError>::value(word.len(), word) {
        assert(word =~= s.subrange(0, word.len() as int));
    }
}

/// A boolean is read whatever follows it.
pub proof fn law_booleans(tail: Seq<u8>)
    ensures
        grammar::boolean(grammar::true_word() + tail) == Outcome::<bool, ParseError>::value(
            4,
            true,
        ),
        grammar::boolean(grammar::false_word() + tail) == Outcome::<bool, ParseError>::value(
            5,
            false,
        ),
{
    let (t, f) = (grammar::true_word(), grammar::false_word());
    assert((t + tail).subrange(0, 4) =~= t);
    assert((f + tail).subrange(0, 5) =~= f);
    assert((f + tail)[0] == 'f' as u8);
    assert(t[0] == 't' as u8);
    if t.is_prefix_of(f + tail) {
        assert((f + tail).subrange(0, 4)[0] == t[0]);
    }
}

/// Behind a token and the blanks that follow it.
pub open spec fn after_token(c: Cursor, token: Seq<u8>) -> Cursor {
    let d = c.advanced(token.len());
    d.advanced(grammar::blank(d.rest))
}

/// Behind the first `k` of some tokens, each with the blanks that follow it.
pub open spec fn after_tokens(c: Cursor, all: Seq<Seq<u8>>, k: nat) -> Cursor
    decreases k,
{
    if k == 0 {
        c
    } else {
        after_token(after_tokens(c, all, (k - 1) as nat), all[k - 1])
    }
}

/// Whether the first `k` of some tokens stand here, each behind the blanks that follow the
/// one before, and the next, if there is one, does not.
pub open spec fn first_tokens(c: Cursor, all: Seq<Seq<u8>>, k: nat) -> bool {
    &&& k <= all.len()
    &&& forall|i: int|
        0 <= i < k ==> (#[trigger] all[i]).is_prefix_of(after_tokens(c, all, i as nat).rest)
    &&& k < all.len() ==> !all[k as int].is_prefix_of(after_tokens(c, all, k).rest)
}

/// Tokens are taken one by one, with the blanks behind each, up to the first that is
/// missing; none behind that one is tried.
pub proof fn law_tokens_are_taken_one_by_one(c: Cursor, all: Seq<Seq<u8>>, k: nat)
    requires
        first_tokens(c, all, k),
    ensures
        grammar::tokens(c.rest, all).1 == (k == all.len()),
        c.advanced(grammar::tokens(c.rest, all).0) == after_tokens(c, all, k),
    decreases all.len(),
{
    if k > 0 {
        let token = all[0];
        let others = all.drop_first();
        let j = (k - 1) as nat;
        let d = after_token(c, token);
        assert(token.is_prefix_of(after_tokens(c, all, 0).rest));
        let m = grammar::blank(c.rest.skip(token.len() as int));
        let n = token.len() + m;
        grammar::lemma_blank(c.rest.skip(token.len() as int));
        c.lemma_rest(token.len());
        c.lemma_compose(token.len(), m);
        c.lemma_rest(n);
        assert(d == c.advanced(n));
        assert forall|i: nat| i <= j implies #[trigger] after_tokens(d, others, i)
            == after_tokens(c, all, i + 1) by {
            lemma_after_tokens(c, all, i);
        }
        assert forall|i: int| 0 <= i < j implies (#[trigger] others[i]).is_prefix_of(
            after_tokens(d, others, i as nat).rest,
        ) by {
            assert(others[i] == all[i + 1]);
            assert(after_tokens(d, others, i as nat) == after_tokens(c, all, (i + 1) as nat));
        }
        if k < all.len() {
            assert(others[j as int] == all[k as int]);
        }
        law_tokens_are_taken_one_by_one(d, others, j);
        c.lemma_compose(n, grammar::tokens(d.rest, others).0);
    }
}

proof fn lemma_after_tokens(c: Cursor, all: Seq<Seq<u8>>, k: nat)
    requires
        k < all.len(),
    ensures
        after_tokens(after_token(c, all[0]), all.drop_first(), k) == after_tokens(c, all, k + 1),
    decreases k,
{
    reveal_with_fuel(after_tokens, 2);
    if k > 0 {
        lemma_after_tokens(c, all, (k - 1) as nat);
        assert(all.drop_first()[k - 1] == all[k as int]);
    }
}

/// Blanks and comments in front of anything are skipped in full, and nothing is skipped
/// where neither stands.
pub proof fn law_gaps_are_skipped(w: Seq<u8>, s: Seq<u8>)
    requires
        alphabet::is_gap(w),
    ensures
        grammar::blank(w + s) == w.len() + grammar::blank(s),
        alphabet::begins(s) ==> grammar::blank(w + s) == w.len(),
    decreases w.len(),
{
    lemma_begins(s);
    if w.len() == 0 {
        assert(w + s =~= s);
    } else if alphabet::is_blank(w[0]) {
        law_gaps_are_skipped(w.drop_first(), s);
        assert((w + s)[0] == w[0]);
        assert((w + s).drop_first() =~= w.drop_first() + s);
    } else {
        let k = alphabet::line_end(w);
        let q = w + s;
        let t = q.skip(2);
        lemma_line_end(w);
        law_gaps_are_skipped(w.skip(k as int), s);
        lemma_mark(w);
        lemma_mark(q);
        assert(w[0] == '/' as u8 && w[1] == '/' as u8) by {
            assert(w[0] == alphabet::comment_mark()[0]);
            assert(w[1] == alphabet::comment_mark()[1]);
        }
        assert(q[0] == w[0] && q[1] == w[1]);
        assert(q.subrange(0, 2) =~= grammar::slashes());
        assert(k >= 2) by {
            assert(w[k as int] == 10);
        }
        assert forall|i: int| 0 <= i < k - 2 implies ByteClass::Line.has(#[trigger] t[i]) by {
            assert(t[i] == w[i + 2]);
        }
        assert(t[k - 2] == w[k as int]);
        grammar::lemma_run_is(t, ByteClass::Line, (k - 2) as nat);
        assert(q.skip(k as int) =~= w.skip(k as int) + s);
    }
}

/// A comment at the very end of the input is skipped too.
pub proof fn law_last_comment_is_skipped(w: Seq<u8>, line: Seq<u8>)
    requires
        alphabet::is_gap(w),
        forall|i: int| 0 <= i < line.len() ==> #[trigger] line[i] != 10,
    ensures
        grammar::blank(w + (alphabet::comment_mark() + line)) == w.len() + 2 + line.len(),
{
    let s = alphabet::comment_mark() + line;
    let t = s.skip(2);
    law_gaps_are_skipped(w, s);
    assert(s[0] == '/' as u8);
    assert(s.subrange(0, 2) =~= grammar::slashes());
    assert(t =~= line);
    grammar::lemma_run_is(t, ByteClass::Line, line.len());
    assert(grammar::comment(s) == s.len());
    let end = s.skip(s.len() as int);
    lemma_begins(end);
    assert(grammar::blank(end) == 0);
}

/// A comment reaches from two slashes to the end of their line, without the line feed.
pub proof fn law_comments(line: Seq<u8>, s: Seq<u8>)
    requires
        forall|i: int| 0 <= i < line.len() ==> #[trigger] line[i] != 10,
        s.len() == 0 || s[0] == 10,
    ensures
        grammar::comment(alphabet::comment_mark() + line + s) == 2 + line.len(),
        !alphabet::starts_with(line, alphabet::comment_mark()) ==> grammar::comment(line) == 0,
{
    let q = alphabet::comment_mark() + line + s;
    let t = q.skip(2);
    lemma_prefix(line, alphabet::comment_mark());
    assert(alphabet::comment_mark() =~= grammar::slashes());
    assert(q.subrange(0, 2) =~= grammar::slashes());
    assert forall|i: int| 0 <= i < line.len() implies ByteClass::Line.has(#[trigger] t[i]) by {
        assert(t[i] == line[i]);
    }
    if s.len() > 0 {
        assert(t[line.len() as int] == s[0]);
    }
    grammar::lemma_run_is(t, ByteClass::Line, line.len());
}

/// A comma is taken with the blanks and comments on both sides. Where none stands, those in
/// front of it are taken alone.
pub proof fn law_commas(w: Seq<u8>, s: Seq<u8>)
    requires
        alphabet::is_gap(w),
    ensures
        grammar::comma(w + (seq![',' as u8] + s)) == (w.len() + 1 + grammar::blank(s), true),
        alphabet::begins(s) && (s.len() == 0 || s[0] != ',' as u8) ==> grammar::comma(w + s) == (
            w.len(),
            false,
        ),
{
    let q = seq![',' as u8] + s;
    assert(q[0] == ',' as u8);
    lemma_begins(q);
    lemma_begins(s);
    law_gaps_are_skipped(w, q);
    law_gaps_are_skipped(w, s);
    assert((w + q)[w.len() as int] == ',' as u8);
    assert((w + q).skip(w.len() as int + 1) =~= s);
    if s.len() > 0 {
        assert((w + s)[w.len() as int] == s[0]);
    }
}

/// Where a comment ends the input, there is no comma; all of it is taken.
pub proof fn law_no_comma_behind_the_last_comment(w: Seq<u8>, line: Seq<u8>)
    requires
        alphabet::is_gap(w),
        forall|i: int| 0 <= i < line.len() ==> #[trigger] line[i] != 10,
    ensures
        grammar::comma(w + (alphabet::comment_mark() + line)) == (w.len() + 2 + line.len(), false),
{
    law_last_comment_is_skipped(w, line);
}

/// A word of letters, digits and `_`, with no digit in front, is read as an identifier as
/// long as what follows is none of these.
pub proof fn law_identifiers(word: Seq<u8>, tail: Seq<u8>)
    requires
        word.len() > 0,
        alphabet::is_word_start(word[0]),
        forall|i: int| 0 <= i < word.len() ==> alphabet::is_word(#[trigger] word[i]),
        tail.len() == 0 || !alphabet::is_word(tail[0]),
    ensures
        grammar::identifier(word + tail).used == word.len(),
        grammar::identifier(word + tail).result matches Ok(w) && w == word,
{
    let s = word + tail;
    assert(s[0] == word[0]);
    assert forall|i: int| 0 <= i < word.len() implies ByteClass::IdentChar.has(#[trigger] s[i]) by {
        assert(s[i] == word[i]);
        assert(alphabet::is_word(word[i]));
    }
    if tail.len() > 0 {
        assert(s[word.len() as int] == tail[0]);
    }
    grammar::lemma_run_is(s, ByteClass::IdentChar, word.len());
    assert(s.take(word.len() as int) =~= word);
}

/// Whatever is read as an identifier stands at the beginning of the input, is made of
/// letters, digits and `_`, starts with no digit, and none of these follows it. Nothing is
/// read where neither a letter nor `_` stands.
pub proof fn law_identifiers_only(s: Seq<u8>)
    ensures
        match grammar::identifier(s).result {
            Ok(w) => {
                &&& w.len() == grammar::identifier(s).used
                &&& alphabet::starts_with(s, w)
                &&& w.len() > 0 && alphabet::is_word_start(w[0])
                &&& forall|i: int| 0 <= i < w.len() ==> alphabet::is_word(#[trigger] w[i])
                &&& s.len() == w.len() || !alphabet::is_word(s[w.len() as int])
            },
            Err(f) => {
                &&& f.at == 0 && grammar::identifier(s).used == 0
                &&& s.len() == 0 ==> f.kind is Eof
                &&& s.len() > 0 ==> f.kind is ExpectedIdentifier && !alphabet::is_word_start(s[0])
            },
        },
{
    grammar::lemma_run(s, ByteClass::IdentChar);
    if let Ok(w) = grammar::identifier(s).result {
        assert forall|i: int| 0 <= i < w.len() implies alphabet::is_word(#[trigger] w[i]) by {
            assert(w[i] == s[i]);
            assert(ByteClass::IdentChar.has(s[i]));
        }
    }
}

/// A given word stands in front exactly if the input starts with it and what follows is
/// neither a letter nor a digit nor `_`.
pub proof fn law_given_words(s: Seq<u8>, word: Seq<u8>)
    ensures
        grammar::ident_at(s, word) <==> alphabet::starts_with(s, word) && (s.len() == word.len()
            || !alphabet::is_word(s[word.len() as int])),
{
    lemma_prefix(s, word);
}

/// `true` and `false` are read whatever follows; nothing else is a boolean.
pub proof fn law_booleans_only(s: Seq<u8>)
    ensures
        ({
            let o = grammar::boolean(s);
            let t = seq!['t' as u8, 'r' as u8, 'u' as u8, 'e' as u8];
            let f = seq!['f' as u8, 'a' as u8, 'l' as u8, 's' as u8, 'e' as u8];
            &&& alphabet::starts_with(s, t) ==> o.used == 4 && (o.result matches Ok(b) && b)
            &&& alphabet::starts_with(s, f) ==> o.used == 5 && (o.result matches Ok(b) && !b)
            &&& !alphabet::starts_with(s, t) && !alphabet::starts_with(s, f) ==> o.used == 0 && (
            o.result matches Err(e) && e.kind is ExpectedBoolean && e.at == 0)
        }),
{
    let t = seq!['t' as u8, 'r' as u8, 'u' as u8, 'e' as u8];
    let f = seq!['f' as u8, 'a' as u8, 'l' as u8, 's' as u8, 'e' as u8];
    lemma_prefix(s, t);
    lemma_prefix(s, f);
    if alphabet::starts_with(s, f) {
        assert(s[0] == f[0]);
        if alphabet::starts_with(s, t) {
            assert(s[0] == t[0]);
        }
    }
}

/// The text of a floating-point number is the longest beginning of the input that is made
/// of digits, points, signs and marks of an exponent.
pub proof fn law_float_texts(number: Seq<u8>, tail: Seq<u8>)
    requires
        forall|i: int| 0 <= i < number.len() ==> alphabet::is_float(#[trigger] number[i]),
        tail.len() == 0 || !alphabet::is_float(tail[0]),
    ensures
        grammar::float_text(number + tail) == number,
{
    let s = number + tail;
    assert forall|i: int| 0 <= i < number.len() implies ByteClass::FloatChar.has(
        #[trigger] s[i],
    ) by {
        assert(s[i] == number[i]);
        assert(alphabet::is_float(number[i]));
    }
    if tail.len() > 0 {
        assert(s[number.len() as int] == tail[0]);
    }
    grammar::lemma_run_is(s, ByteClass::FloatChar, number.len());
    assert(s.take(number.len() as int) =~= number);
}

/// Every byte that is taken for a floating-point number can belong to one, and the byte
/// behind them cannot.
pub proof fn law_float_texts_only(s: Seq<u8>)
    ensures
        ({
            let n = grammar::float_text(s);
            &&& alphabet::starts_with(s, n)
            &&& forall|i: int| 0 <= i < n.len() ==> alphabet::is_float(#[trigger] n[i])
            &&& s.len() == n.len() || !alphabet::is_float(s[n.len() as int])
        }),
{
    let n = grammar::float_text(s);
    grammar::lemma_run(s, ByteClass::FloatChar);
    assert forall|i: int| 0 <= i < n.len() implies alphabet::is_float(#[trigger] n[i]) by {
        assert(n[i] == s[i]);
        assert(ByteClass::FloatChar.has(s[i]));
    }
}

/// The input goes on with a token exactly if the two agree byte by byte.
pub proof fn lemma_prefix(s: Seq<u8>, p: Seq<u8>)
    ensures
        p.is_prefix_of(s) <==> alphabet::starts_with(s, p),
{
    if p.len() <= s.len() {
        let q = s.subrange(0, p.len() as int);
        if alphabet::starts_with(s, p) {
            assert(p =~= q);
        }
        if p == q {
            assert forall|i: int| 0 <= i < p.len() implies s[i] == #[trigger] p[i] by {
                assert(q[i] == s[i]);
            }
        }
    }
}

/// Nothing is skipped where neither a blank nor a comment stands.
pub proof fn lemma_begins(s: Seq<u8>)
    ensures
        alphabet::begins(s) <==> grammar::blank(s) == 0,
        s.len() > 0 && !alphabet::is_blank(s[0]) && s[0] != '/' as u8 ==> alphabet::begins(s),
{
    lemma_prefix(s, alphabet::comment_mark());
    assert(alphabet::comment_mark() =~= grammar::slashes());
    if alphabet::starts_with(s, alphabet::comment_mark()) {
        assert(s[0] == alphabet::comment_mark()[0]);
    }
}

proof fn lemma_mark(s: Seq<u8>)
    requires
        s.len() >= 2,
    ensures
        alphabet::starts_with(s, alphabet::comment_mark()) <==> s[0] == '/' as u8 && s[1]
            == '/' as u8,
{
    let m = alphabet::comment_mark();
    assert(m[0] == '/' as u8 && m[1] == '/' as u8);
    if s[0] == '/' as u8 && s[1] == '/' as u8 {
        assert forall|i: int| 0 <= i < m.len() implies s[i] == #[trigger] m[i] by {
            assert(i == 0 || i == 1);
        }
    }
}

proof fn lemma_line_end(s: Seq<u8>)
    ensures
        alphabet::line_end(s) <= s.len(),
        forall|i: int| 0 <= i < alphabet::line_end(s) ==> #[trigger] s[i] != 10,
        alphabet::line_end(s) < s.len() ==> s[alphabet::line_end(s) as int] == 10,
    decreases s.len(),
{
    if s.len() > 0 && s[0] != 10 {
        let t = s.drop_first();
        lemma_line_end(t);
        assert forall|i: int| 0 <= i < alphabet::line_end(s) implies #[trigger] s[i] != 10 by {
            if i > 0 {
                assert(s[i] == t[i - 1]);
            }
        }
    }
}

} // verus!
