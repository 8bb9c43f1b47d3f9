//! Numbers, words and spaces in text.
use crate::{text, wording};
use vstd::prelude::*;

verus! {

/// A number that is written in decimal digits is read back, and has no zero before it.
pub proof fn law_decimals_are_read_back(n: nat, limit: nat)
    requires
        n <= limit,
    ensures
        text::number(text::decimal(n), limit) == Some(n),
        n > 0 ==> text::decimal(n)[0] != '0',
{
    lemma_decimal(n);
}

proof fn lemma_decimal(n: nat)
    ensures
        text::decimal(n).len() > 0,
        text::value(text::decimal(n)) == n,
        forall|i: int| 0 <= i < text::decimal(n).len() ==> text::is_digit(#[trigger] text::decimal(n)[i]),
        n > 0 ==> text::decimal(n)[0] != '0',
    decreases n,
{
    let s = text::decimal(n);
    let last = text::digit((n % 10) as int);
    assert(last as u32 == 48 + n % 10);
    if n >= 10 {
        lemma_decimal(n / 10);
        let t = text::decimal(n / 10);
        assert(s == t.push(last));
        assert(s.drop_last() =~= t);
        assert(s.last() == last);
        assert(s[0] == t[0]);
    } else {
        assert(s == seq![last]);
        assert(s.drop_last() =~= seq![]);
        assert(text::value(s.drop_last()) == 0);
        assert(s.last() == last);
        assert(s[0] == last);
    }
}

/// The value of a hexadecimal digit.
pub open spec fn hex_digit(c: char) -> int {
    if '0' <= c && c <= '9' {
        c as u32 - 48
    } else {
        c as u32 - 87
    }
}

/// The value of hexadecimal digits.
pub open spec fn hex_value(s: Seq<char>) -> int
    decreases s.len(),
{
    if s.len() == 0 {
        0
    } else {
        16 * hex_value(s.drop_last()) + hex_digit(s.last())
    }
}

/// A number in hexadecimal digits has its value, at least as many digits as asked for, and more only
/// where it needs them.
pub proof fn law_hexadecimals_have_their_value(n: nat, least: nat)
    ensures
        hex_value(text::hex(n, least)) == n,
        text::hex(n, least).len() >= least,
        text::hex(n, least).len() > least ==> hex_digit(text::hex(n, least)[0]) != 0,
        forall|i: int|
            0 <= i < text::hex(n, least).len() ==> {
                let c = #[trigger] text::hex(n, least)[i];
                ('0' <= c && c <= '9') || ('a' <= c && c <= 'f')
            },
    decreases n, least,
{
    if n > 0 || least > 0 {
        let rest = if least == 0 {
            0
        } else {
            (least - 1) as nat
        };
        law_hexadecimals_have_their_value(n / 16, rest);
        let d = (n % 16) as int;
        let c = if d < 10 {
            text::digit(d)
        } else {
            (87 + d) as char
        };
        let t = text::hex(n / 16, rest);
        let s = text::hex(n, least);
        assert(s == t.push(c));
        assert(s.drop_last() =~= t);
        assert(s.last() == c);
        assert(hex_digit(c) == d);
        assert forall|i: int| 0 <= i < s.len() implies {
            let c = #[trigger] s[i];
            ('0' <= c && c <= '9') || ('a' <= c && c <= 'f')
        } by {
            if i < t.len() {
                assert(s[i] == t[i]);
            }
        }
        if t.len() > 0 {
            assert(s[0] == t[0]);
        } else {
            assert(s[0] == c);
            assert(hex_value(t) == 0);
        }
    }
}

/// Whether `s` is made of spaces.
pub open spec fn spaces(s: Seq<char>) -> bool {
    forall|i: int| 0 <= i < s.len() ==> text::is_space(#[trigger] s[i])
}

/// Whether `s` has no space in it.
pub open spec fn solid(s: Seq<char>) -> bool {
    forall|i: int| 0 <= i < s.len() ==> !text::is_space(#[trigger] s[i])
}

/// Trimming takes away the spaces at both ends and nothing else.
pub proof fn law_trimming(a: Seq<char>, x: Seq<char>, b: Seq<char>)
    requires
        spaces(a),
        spaces(b),
        x.len() > 0 ==> !text::is_space(x[0]) && !text::is_space(x.last()),
    ensures
        text::trim(a + x + b) == x,
{
    let s = a + x + b;
    let n = a.len() as int;
    if x.len() > 0 {
        assert forall|j: int| 0 <= j < n implies !(text::ink())(#[trigger] s[j]) by {
            assert(s[j] == a[j]);
        }
        assert(s[n] == x[0]);
        wording::lemma_find_at(s, text::ink(), 0, n);
        assert(s.skip(n) =~= x + b);
        lemma_trim_end(x, b);
    } else {
        assert forall|j: int| 0 <= j < s.len() implies !(text::ink())(#[trigger] s[j]) by {
            if j < n {
                assert(s[j] == a[j]);
            } else {
                assert(s[j] == b[j - n]);
            }
        }
        wording::lemma_find_at(s, text::ink(), 0, s.len() as int);
        assert(s.skip(s.len() as int) =~= x);
    }
}

proof fn lemma_trim_end(x: Seq<char>, b: Seq<char>)
    requires
        spaces(b),
        x.len() > 0,
        !text::is_space(x.last()),
    ensures
        text::trim_end(x + b) == x,
    decreases b.len(),
{
    if b.len() > 0 {
        assert((x + b).last() == b[b.len() - 1]);
        assert((x + b).drop_last() =~= x + b.drop_last());
        assert forall|i: int| 0 <= i < b.drop_last().len() implies text::is_space(
            #[trigger] b.drop_last()[i],
        ) by {
            assert(b.drop_last()[i] == b[i]);
        }
        lemma_trim_end(x, b.drop_last());
    } else {
        assert(x + b =~= x);
    }
}

/// What is found in a sequence is found in its rest.
proof fn lemma_find_shift<T>(s: Seq<T>, p: spec_fn(T) -> bool, i: int, k: int)
    requires
        0 <= k <= i <= s.len(),
    ensures
        text::find(s.skip(k), p, i - k) == text::find(s, p, i) - k,
    decreases s.len() - i,
{
    if i < s.len() {
        assert(s.skip(k)[i - k] == s[i]);
        lemma_find_shift(s, p, i + 1, k);
    }
}

proof fn lemma_pieces_shift(s: Seq<char>, c: char, i: int, k: int)
    requires
        0 <= k <= i <= s.len(),
    ensures
        text::pieces(s.skip(k), c, i - k) == text::pieces(s, c, i),
    decreases s.len() - i,
{
    lemma_find_shift(s, text::only(c), i, k);
    text::lemma_find(s, text::only(c), i);
    let b = text::find(s, text::only(c), i);
    let t = s.skip(k);
    if b < s.len() {
        lemma_pieces_shift(s, c, b + 1, k);
        assert(t.subrange(i - k, b - k) =~= s.subrange(i, b));
    } else {
        assert(t.subrange(i - k, t.len() as int) =~= s.subrange(i, s.len() as int));
    }
}

/// Splitting cuts at every separator: the first piece ends at the first one, and the others are
/// those of what follows it. Without a separator there is one piece.
pub proof fn law_splitting(x: Seq<char>, c: char, rest: Seq<char>)
    requires
        forall|i: int| 0 <= i < x.len() ==> #[trigger] x[i] != c,
    ensures
        text::pieces(x, c, 0) == seq![x],
        text::pieces(x + seq![c] + rest, c, 0) == seq![x] + text::pieces(rest, c, 0),
{
    let n = x.len() as int;
    assert forall|j: int| 0 <= j < n implies !(text::only(c))(#[trigger] x[j]) by {}
    wording::lemma_find_at(x, text::only(c), 0, n);
    assert(x.subrange(0, n) =~= x);
    let s = x + seq![c] + rest;
    assert forall|j: int| 0 <= j < n implies !(text::only(c))(#[trigger] s[j]) by {
        assert(s[j] == x[j]);
    }
    assert(s[n] == c);
    wording::lemma_find_at(s, text::only(c), 0, n);
    assert(s.subrange(0, n) =~= x);
    lemma_pieces_shift(s, c, n + 1, n + 1);
    assert(s.skip(n + 1) =~= rest);
}

proof fn lemma_words_shift(s: Seq<char>, i: int, k: int)
    requires
        0 <= k <= i <= s.len(),
    ensures
        text::words(s.skip(k), i - k) == text::words(s, i),
    decreases s.len() - i,
{
    lemma_find_shift(s, text::ink(), i, k);
    text::lemma_find(s, text::ink(), i);
    let a = text::find(s, text::ink(), i);
    if a < s.len() {
        lemma_find_shift(s, text::space(), a, k);
        text::lemma_find(s, text::space(), a);
        let b = text::find(s, text::space(), a);
        lemma_words_shift(s, b, k);
        assert(s.skip(k).subrange(a - k, b - k) =~= s.subrange(a, b));
    }
}

/// Words stand between spaces: the first one ends at the first space behind it, and the others are
/// those of what follows it. Spaces alone hold no words.
pub proof fn law_words(gap: Seq<char>, x: Seq<char>, rest: Seq<char>)
    requires
        spaces(gap),
        solid(x),
        x.len() > 0,
        rest.len() > 0 ==> text::is_space(rest[0]),
    ensures
        text::words(gap, 0).len() == 0,
        text::words(gap + x + rest, 0) == seq![x] + text::words(rest, 0),
{
    let s = gap + x + rest;
    let a = gap.len() as int;
    let b = a + x.len();
    assert forall|j: int| 0 <= j < a implies !(text::ink())(#[trigger] gap[j]) by {}
    wording::lemma_find_at(gap, text::ink(), 0, a);
    assert forall|j: int| 0 <= j < a implies !(text::ink())(#[trigger] s[j]) by {
        assert(s[j] == gap[j]);
    }
    assert(s[a] == x[0]);
    wording::lemma_find_at(s, text::ink(), 0, a);
    assert forall|j: int| a <= j < b implies !(text::space())(#[trigger] s[j]) by {
        assert(s[j] == x[j - a]);
    }
    if rest.len() > 0 {
        assert(s[b] == rest[0]);
    }
    wording::lemma_find_at(s, text::space(), a, b);
    assert(s.subrange(a, b) =~= x);
    lemma_words_shift(s, b, b);
    assert(s.skip(b) =~= rest);
}

/// The spaces of ASCII are the space, the tab and the four characters behind it.
pub proof fn law_spaces_of_ascii(c: char)
    requires
        c as u32 <= 127,
    ensures
        text::is_space(c) <==> c == ' ' || c == '\t' || c == '\n' || c == '\u{b}' || c == '\u{c}'
            || c == '\r',
{
}

/// Behind ASCII, the spaces are those to which Unicode gives the property of white space.
pub proof fn law_spaces_of_unicode(c: char)
    requires
        c as u32 > 127,
    ensures
        text::is_space(c) <==> {
            ||| c == '\u{85}' || c == '\u{a0}' || c == '\u{1680}'
            ||| c == '\u{2000}' || c == '\u{2001}' || c == '\u{2002}' || c == '\u{2003}'
            ||| c == '\u{2004}' || c == '\u{2005}' || c == '\u{2006}' || c == '\u{2007}'
            ||| c == '\u{2008}' || c == '\u{2009}' || c == '\u{200a}'
            ||| c == '\u{2028}' || c == '\u{2029}' || c == '\u{202f}' || c == '\u{205f}'
            ||| c == '\u{3000}'
        },
{
}

} // verus!
