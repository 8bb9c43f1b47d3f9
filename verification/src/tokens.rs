//! What the tokens of PGN are.
use crate::error::ErrorKind;
use crate::pgn::Token;
use crate::{pgn, text, wording};
use vstd::prelude::*;

verus! {

/// Whether `s` is made of white space: spaces, tabs, form feeds and ends of lines.
pub open spec fn spaces(s: Seq<u8>) -> bool {
    forall|i: int|
        0 <= i < s.len() ==> {
            let b = #[trigger] s[i];
            b == 32 || b == 9 || b == 12 || b == 10 || b == 13
        }
}

/// Whether none of the bytes of `s` is `b`.
pub open spec fn without(s: Seq<u8>, b: u8) -> bool {
    forall|i: int| 0 <= i < s.len() ==> #[trigger] s[i] != b
}

/// Input that begins with white space is read from what follows it.
proof fn lemma_skip(gap: Seq<u8>, s: Seq<u8>)
    requires
        spaces(gap),
        s.len() > 0,
        !pgn::blank(s[0]),
    ensures
        (gap + s).skip(text::find(gap + s, pgn::solid(), 0)) == s,
{
    let t = gap + s;
    let n = gap.len() as int;
    assert forall|j: int| 0 <= j < n implies !(pgn::solid())(#[trigger] t[j]) by {
        assert(t[j] == gap[j]);
    }
    assert(t[n] == s[0]);
    wording::lemma_find_at(t, pgn::solid(), 0, n);
    assert(t.skip(n) =~= s);
}

/// A comment in braces goes to the first closing brace.
pub proof fn law_braces_hold_comments(gap: Seq<u8>, x: Seq<u8>, rest: Seq<u8>, open: bool)
    requires
        spaces(gap),
        without(x, 0x7d),
        x.len() <= 1048576,
    ensures
        ({
            let r = pgn::lex(gap + seq![0x7bu8] + x + seq![0x7du8] + rest, open);
            &&& r.kind == Ok::<Option<Token>, (ErrorKind, Seq<char>)>(Some(Token::Comment))
            &&& r.text == x
            &&& r.rest == rest
        }),
{
    let s = seq![0x7bu8] + x + seq![0x7du8] + rest;
    let all = gap + seq![0x7bu8] + x + seq![0x7du8] + rest;
    assert(all =~= gap + s);
    assert(s[0] == 0x7b);
    lemma_skip(gap, s);
    let u = s.skip(1);
    let n = x.len() as int;
    assert(u =~= x + seq![0x7du8] + rest);
    assert(u[n] == 0x7d);
    assert forall|j: int| 0 <= j < n implies !(text::only(0x7du8))(#[trigger] u[j]) by {
        assert(u[j] == x[j]);
    }
    wording::lemma_find_at(u, text::only(0x7du8), 0, n);
    let none: Seq<u8> = seq![];
    assert(none + u.take(n) =~= x);
    assert(u.skip(n + 1) =~= rest);
}

/// A comment behind a semicolon or a percent sign goes to the end of the line, or of the input.
pub proof fn law_lines_hold_comments(
    gap: Seq<u8>,
    mark: u8,
    x: Seq<u8>,
    end: u8,
    rest: Seq<u8>,
    open: bool,
)
    requires
        spaces(gap),
        mark == 0x3b || mark == 0x25,
        without(x, 10),
        without(x, 13),
        end == 10 || end == 13,
        x.len() <= 1048576,
    ensures
        ({
            let r = pgn::lex(gap + seq![mark] + x + seq![end] + rest, open);
            &&& r.kind == Ok::<Option<Token>, (ErrorKind, Seq<char>)>(Some(Token::Comment))
            &&& r.text == x
            &&& r.rest == rest
        }),
        ({
            let r = pgn::lex(gap + seq![mark] + x, false);
            &&& r.kind == Ok::<Option<Token>, (ErrorKind, Seq<char>)>(Some(Token::Comment))
            &&& r.text == x
            &&& r.rest.len() == 0
        }),
{
    let none: Seq<u8> = seq![];
    let n = x.len() as int;
    let s = seq![mark] + x + seq![end] + rest;
    assert(gap + seq![mark] + x + seq![end] + rest =~= gap + s);
    assert(s[0] == mark);
    lemma_skip(gap, s);
    let u = s.skip(1);
    assert(u =~= x + seq![end] + rest);
    assert(u[n] == end);
    assert forall|j: int| 0 <= j < n implies !(pgn::line_end())(#[trigger] u[j]) by {
        assert(u[j] == x[j]);
    }
    wording::lemma_find_at(u, pgn::line_end(), 0, n);
    assert(none + u.take(n) =~= x);
    assert(u.skip(n + 1) =~= rest);
    let t = seq![mark] + x;
    assert(gap + seq![mark] + x =~= gap + t);
    assert(t[0] == mark);
    lemma_skip(gap, t);
    let v = t.skip(1);
    assert(v =~= x);
    assert forall|j: int| 0 <= j < n implies !(pgn::line_end())(#[trigger] v[j]) by {
        assert(v[j] == x[j]);
    }
    wording::lemma_find_at(v, pgn::line_end(), 0, n);
    assert(none + v =~= x);
}

/// Parentheses are tokens of their own.
pub proof fn law_parentheses_stand_alone(gap: Seq<u8>, rest: Seq<u8>, open: bool)
    requires
        spaces(gap),
    ensures
        pgn::lex(gap + seq![0x28u8] + rest, open).kind == Ok::<
            Option<Token>,
            (ErrorKind, Seq<char>),
        >(Some(Token::Open)),
        pgn::lex(gap + seq![0x28u8] + rest, open).rest == rest,
        pgn::lex(gap + seq![0x29u8] + rest, open).kind == Ok::<
            Option<Token>,
            (ErrorKind, Seq<char>),
        >(Some(Token::Close)),
        pgn::lex(gap + seq![0x29u8] + rest, open).rest == rest,
{
    let a = seq![0x28u8] + rest;
    let b = seq![0x29u8] + rest;
    assert(gap + seq![0x28u8] + rest =~= gap + a);
    assert(gap + seq![0x29u8] + rest =~= gap + b);
    assert(a[0] == 0x28 && b[0] == 0x29);
    lemma_skip(gap, a);
    lemma_skip(gap, b);
    assert(a.skip(1) =~= rest);
    assert(b.skip(1) =~= rest);
}

/// Whether a byte ends a word: white space, or one of `[ { } ( ) ; $`.
pub open spec fn ends_word(b: u8) -> bool {
    ||| b == 32 || b == 9 || b == 12 || b == 10 || b == 13
    ||| b == 0x5b || b == 0x7b || b == 0x7d || b == 0x28 || b == 0x29 || b == 0x3b || b == 0x24
}

/// A word goes on until white space or one of `[ { } ( ) ; $`, or to the end of the input. What
/// begins neither a tag nor a comment nor a variation begins a word.
pub proof fn law_words_end(gap: Seq<u8>, x: Seq<u8>, rest: Seq<u8>, open: bool)
    requires
        spaces(gap),
        0 < x.len() <= 4096,
        !ends_word(x[0]) || x[0] == 0x24 || x[0] == 0x7d,
        x[0] != 0x25,
        forall|i: int| 1 <= i < x.len() ==> !ends_word(#[trigger] x[i]),
        rest.len() > 0 ==> ends_word(rest[0]),
        rest.len() == 0 ==> !open,
    ensures
        ({
            let r = pgn::lex(gap + x + rest, open);
            &&& r.kind == Ok::<Option<Token>, (ErrorKind, Seq<char>)>(Some(Token::Word))
            &&& r.text == x
            &&& r.rest == rest
        }),
{
    let s = x + rest;
    assert(gap + x + rest =~= gap + s);
    assert(s[0] == x[0]);
    lemma_skip(gap, s);
    let u = s.skip(1);
    let n = x.len() - 1;
    assert forall|j: int| 0 <= j < n implies !(pgn::word_end())(#[trigger] u[j]) by {
        assert(u[j] == x[j + 1]);
    }
    if rest.len() > 0 {
        assert(u[n] == rest[0]);
    }
    wording::lemma_find_at(u, pgn::word_end(), 0, n);
    assert(seq![s[0]] + u.take(n) =~= x);
    assert(u.skip(n) =~= rest);
    assert(seq![s[0]] + u =~= s);
    if rest.len() == 0 {
        assert(s =~= x);
    }
}

/// A tag is a name and a value between quotation marks, and ends with its bracket. In the value a
/// bracket is a character like others.
pub proof fn law_tags_end(
    gap: Seq<u8>,
    name: Seq<u8>,
    value: Seq<u8>,
    rest: Seq<u8>,
    open: bool,
)
    requires
        spaces(gap),
        without(name, 0x22),
        without(name, 0x5c),
        without(name, 0x5d),
        without(value, 0x22),
        without(value, 0x5c),
        name.len() + value.len() + 2 <= 1048576,
    ensures
        ({
            let x = name + seq![0x22u8] + value + seq![0x22u8];
            let r = pgn::lex(gap + seq![0x5bu8] + x + seq![0x5du8] + rest, open);
            &&& r.kind == Ok::<Option<Token>, (ErrorKind, Seq<char>)>(Some(Token::Tag))
            &&& r.text == x
            &&& r.rest == rest
        }),
{
    let x = name + seq![0x22u8] + value + seq![0x22u8];
    lemma_tag_body(name, value, seq![0x5du8] + rest);
    lemma_tag_at(gap, x, rest, open);
}

/// A tag whose body ends at its bracket is read.
proof fn lemma_tag_at(gap: Seq<u8>, x: Seq<u8>, rest: Seq<u8>, open: bool)
    requires
        spaces(gap),
        x.len() <= 1048576,
        pgn::tag_end(x + (seq![0x5du8] + rest), 0, false, false) == x.len(),
    ensures
        ({
            let r = pgn::lex(gap + seq![0x5bu8] + x + seq![0x5du8] + rest, open);
            &&& r.kind == Ok::<Option<Token>, (ErrorKind, Seq<char>)>(Some(Token::Tag))
            &&& r.text == x
            &&& r.rest == rest
        }),
{
    let s = seq![0x5bu8] + x + seq![0x5du8] + rest;
    assert(gap + seq![0x5bu8] + x + seq![0x5du8] + rest =~= gap + s);
    assert(s[0] == 0x5b);
    lemma_skip(gap, s);
    let u = s.skip(1);
    let n = x.len() as int;
    assert(u =~= x + (seq![0x5du8] + rest));
    let none: Seq<u8> = seq![];
    assert(none + u.take(n) =~= x);
    assert(u.skip(n + 1) =~= rest);
}

/// The body of a tag ends before the bracket.
proof fn lemma_tag_body(name: Seq<u8>, value: Seq<u8>, tail: Seq<u8>)
    requires
        without(name, 0x22),
        without(name, 0x5c),
        without(name, 0x5d),
        without(value, 0x22),
        without(value, 0x5c),
        tail.len() > 0,
        tail[0] == 0x5d,
    ensures
        ({
            let x = name + seq![0x22u8] + value + seq![0x22u8];
            pgn::tag_end(x + tail, 0, false, false) == x.len()
        }),
{
    let x = name + seq![0x22u8] + value + seq![0x22u8];
    let u = x + tail;
    let n = x.len() as int;
    let a = name.len() as int;
    let b = a + 1 + value.len();
    assert forall|j: int| 0 <= j < a implies #[trigger] u[j] != 0x22 && u[j] != 0x5c && u[j]
        != 0x5d by {
        assert(u[j] == name[j]);
    }
    assert(u[a] == 0x22 && u[b] == 0x22 && u[n] == 0x5d);
    assert forall|j: int| a < j < b implies #[trigger] u[j] != 0x22 && u[j] != 0x5c by {
        assert(u[j] == value[j - a - 1]);
    }
    lemma_plain_run(u, 0, a, false);
    lemma_plain_run(u, a + 1, b, true);
    assert(pgn::tag_end(u, a, false, false) == pgn::tag_end(u, a + 1, true, false));
    assert(pgn::tag_end(u, b, true, false) == pgn::tag_end(u, b + 1, false, false));
    assert(pgn::tag_end(u, n, false, false) == n);
}

/// Bytes that are no quotation mark, no backslash and, outside quotes, no bracket are passed over.
proof fn lemma_plain_run(u: Seq<u8>, i: int, k: int, quoted: bool)
    requires
        0 <= i <= k <= u.len(),
        forall|j: int|
            i <= j < k ==> #[trigger] u[j] != 0x22 && u[j] != 0x5c && (quoted || u[j] != 0x5d),
    ensures
        pgn::tag_end(u, i, quoted, false) == pgn::tag_end(u, k, quoted, false),
    decreases k - i,
{
    if i < k {
        assert(u[i] != 0x22 && u[i] != 0x5c);
        lemma_plain_run(u, i + 1, k, quoted);
    }
}

/// A character behind a backslash neither opens nor closes a quotation.
pub proof fn law_backslash_escapes(u: Seq<u8>, i: int)
    requires
        0 <= i,
        i + 1 < u.len(),
        u[i] == 0x5c,
    ensures
        pgn::tag_end(u, i, true, false) == pgn::tag_end(u, i + 2, true, false),
{
    assert(pgn::tag_end(u, i, true, false) == pgn::tag_end(u, i + 1, true, true));
}

/// A word of more than 4096 bytes is refused.
pub proof fn law_long_words_are_refused(gap: Seq<u8>, x: Seq<u8>, rest: Seq<u8>, open: bool)
    requires
        spaces(gap),
        x.len() > 4096,
        !ends_word(x[0]) || x[0] == 0x24 || x[0] == 0x7d,
        x[0] != 0x25,
        forall|i: int| 1 <= i < x.len() ==> !ends_word(#[trigger] x[i]),
    ensures
        pgn::lex(gap + x + rest, open).kind matches Err(e) && e.0 == ErrorKind::InvalidData,
{
    let s = x + rest;
    assert(gap + x + rest =~= gap + s);
    assert(s[0] == x[0]);
    lemma_skip(gap, s);
    let u = s.skip(1);
    assert forall|j: int| 0 <= j < x.len() - 1 implies !(pgn::word_end())(#[trigger] u[j]) by {
        assert(u[j] == x[j + 1]);
    }
    lemma_find_behind(u, pgn::word_end(), 0, x.len() - 1);
}

/// A comment of more than a mebibyte is refused, and so is a tag.
pub proof fn law_long_comments_and_tags_are_refused(
    gap: Seq<u8>,
    mark: u8,
    x: Seq<u8>,
    rest: Seq<u8>,
    open: bool,
)
    requires
        spaces(gap),
        x.len() > 1048576,
        mark == 0x7b ==> without(x, 0x7d),
        mark == 0x3b || mark == 0x25 ==> without(x, 10) && without(x, 13),
        mark == 0x5b ==> without(x, 0x5d),
        mark == 0x7b || mark == 0x3b || mark == 0x25 || mark == 0x5b,
    ensures
        pgn::lex(gap + seq![mark] + x + rest, open).kind matches Err(e) && e.0
            == ErrorKind::InvalidData,
{
    let s = seq![mark] + x + rest;
    assert(gap + seq![mark] + x + rest =~= gap + s);
    assert(s[0] == mark);
    lemma_skip(gap, s);
    let u = s.skip(1);
    let n = x.len() as int;
    assert forall|j: int| 0 <= j < n implies #[trigger] u[j] == x[j] by {}
    if mark == 0x7b {
        lemma_find_behind(u, text::only(0x7du8), 0, n);
    } else if mark == 0x5b {
        assert forall|j: int| 0 <= j < n implies #[trigger] u[j] != 0x5d by {
            assert(u[j] == x[j]);
        }
        lemma_tag_behind(u, 0, n, false, false);
    } else {
        lemma_find_behind(u, pgn::line_end(), 0, n);
    }
}

/// What is looked for is not found where it is not.
proof fn lemma_find_behind(u: Seq<u8>, p: spec_fn(u8) -> bool, i: int, n: int)
    requires
        0 <= i <= n <= u.len(),
        forall|j: int| i <= j < n ==> !p(#[trigger] u[j]),
    ensures
        text::find(u, p, i) >= n,
{
    text::lemma_find(u, p, i);
}

/// A tag does not end where there is no bracket.
proof fn lemma_tag_behind(u: Seq<u8>, i: int, n: int, quoted: bool, escaped: bool)
    requires
        0 <= i <= u.len(),
        n <= u.len(),
        forall|j: int| i <= j < n ==> #[trigger] u[j] != 0x5d,
    ensures
        pgn::tag_end(u, i, quoted, escaped) >= n,
        pgn::tag_end(u, i, quoted, escaped) >= i,
    decreases u.len() - i,
{
    if i < u.len() {
        let now = if u[i] == 0x22 && !escaped {
            !quoted
        } else {
            quoted
        };
        lemma_tag_behind(u, i + 1, n, now, u[i] == 0x5c && !escaped);
    }
}

} // verus!
